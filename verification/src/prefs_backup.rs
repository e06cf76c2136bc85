//! Structured backup and restore of Zotero's `prefs.js`: its `user_pref`
//! entries read and classified (path-like and sensitive settings, Zotero
//! and plugin namespaces), changes previewed, and chosen values merged back
//! into the current file text.

use crate::numbers::{all_digits, i64_text, i64_to_chars, parse_i64_chars, parse_i64_spec};
use crate::text::{
    ascii_lower_chars, chars_eq, chars_of, contains, contains_chars, find, find_chars, has_char,
    has_char_chars, lemma_find_from_props, lower_seq, push_all, push_str, slice_chars, starts_with,
    starts_with_chars, string_of, trim, trim_chars, trim_start, trim_start_chars, Trim,
};
use crate::zotero_prefs::{js_decode, js_decode_from, js_escape};
use vstd::prelude::*;

verus! {

// ---------------------------------------------------------------------
// Values, kinds, entries
// ---------------------------------------------------------------------

/// A pref value. A float is held as the literal text it was read from.
#[derive(Debug, Clone)]
pub enum PrefValue {
    Bool(bool),
    Integer(i64),
    Float(String),
    String(String),
}

pub ghost enum PrefValueV {
    Bool(bool),
    Integer(i64),
    Float(Seq<char>),
    Str(Seq<char>),
}

pub open spec fn value_view(v: PrefValue) -> PrefValueV {
    match v {
        PrefValue::Bool(b) => PrefValueV::Bool(b),
        PrefValue::Integer(i) => PrefValueV::Integer(i),
        PrefValue::Float(t) => PrefValueV::Float(t@),
        PrefValue::String(s) => PrefValueV::Str(s@),
    }
}

/// The value as a JavaScript literal in `prefs.js`.
pub open spec fn js_literal(v: PrefValueV) -> Seq<char> {
    match v {
        PrefValueV::Bool(b) => if b {
            "true"@
        } else {
            "false"@
        },
        PrefValueV::Integer(i) => i64_text(i),
        PrefValueV::Float(t) => if has_char(t, '.') || has_char(t, 'e') || has_char(t, 'E') {
            t
        } else {
            t + ".0"@
        },
        PrefValueV::Str(s) => seq!['"'] + js_escape(s) + seq!['"'],
    }
}

impl PrefValue {
    /// The string of a string value.
    pub fn as_text(&self) -> (res: Option<&String>)
        ensures
            match *self {
                PrefValue::String(s) => res == Some(&s),
                _ => res is None,
            },
    {
        match self {
            PrefValue::String(s) => Some(s),
            _ => None,
        }
    }

    /// The value as a JavaScript literal.
    pub fn to_js_literal(&self) -> (res: String)
        ensures
            res@ == js_literal(value_view(*self)),
    {
        let v = js_literal_chars(self);
        string_of(v.as_slice())
    }

    /// Value equality: same variant and same content.
    pub fn same_as(&self, other: &PrefValue) -> (res: bool)
        ensures
            res == (value_view(*self) == value_view(*other)),
    {
        match (self, other) {
            (PrefValue::Bool(a), PrefValue::Bool(b)) => *a == *b,
            (PrefValue::Integer(a), PrefValue::Integer(b)) => *a == *b,
            (PrefValue::Float(a), PrefValue::Float(b)) => crate::text::str_eq(a.as_str(), b.as_str()),
            (PrefValue::String(a), PrefValue::String(b)) => crate::text::str_eq(a.as_str(), b.as_str()),
            _ => false,
        }
    }

    /// A copy of the value.
    pub fn copy(&self) -> (res: PrefValue)
        ensures
            value_view(res) == value_view(*self),
    {
        match self {
            PrefValue::Bool(b) => PrefValue::Bool(*b),
            PrefValue::Integer(i) => PrefValue::Integer(*i),
            PrefValue::Float(t) => PrefValue::Float(t.clone()),
            PrefValue::String(s) => PrefValue::String(s.clone()),
        }
    }
}

fn js_literal_chars(v: &PrefValue) -> (res: Vec<char>)
    ensures
        res@ == js_literal(value_view(*v)),
{
    match v {
        PrefValue::Bool(b) => if *b {
            chars_of("true")
        } else {
            chars_of("false")
        },
        PrefValue::Integer(i) => i64_to_chars(*i),
        PrefValue::Float(t) => {
            let mut c = chars_of(t.as_str());
            if !(has_char_chars(&c, '.') || has_char_chars(&c, 'e') || has_char_chars(&c, 'E')) {
                push_str(&mut c, ".0");
            }
            c
        },
        PrefValue::String(s) => {
            let mut c: Vec<char> = Vec::new();
            c.push('"');
            let e = crate::zotero_prefs::escape_js_string(s.as_str());
            push_str(&mut c, e.as_str());
            c.push('"');
            assert(c@ =~= seq!['"'] + js_escape(s@) + seq!['"']);
            c
        },
    }
}

/// How a pref travels between machines.
#[derive(Debug, Clone, Copy, PartialEq, Eq, Structural)]
pub enum PrefKind {
    Portable,
    Path,
    Sensitive,
    Unknown,
}

/// Who a pref belongs to.
#[derive(Debug, Clone, Copy, PartialEq, Eq, Structural)]
pub enum PrefScope {
    Zotero,
    Plugin,
    Browser,
    Unknown,
}

/// One `user_pref` entry.
#[derive(Debug, Clone)]
pub struct PrefEntry {
    pub key: String,
    pub value: PrefValue,
    pub kind: PrefKind,
    pub scope: PrefScope,
    pub plugin: Option<String>,
}

/// A pref left out of a backup, and why.
#[derive(Debug, Clone)]
pub struct SkippedPref {
    pub key: String,
    pub reason: String,
}

/// A saved backup of prefs.
#[derive(Debug, Clone)]
pub struct PrefsBackup {
    pub format_version: u32,
    pub app: String,
    pub created_at: String,
    pub profile: String,
    pub prefs: Vec<PrefEntry>,
    pub skipped: Vec<SkippedPref>,
}

/// What a prefs file holds, counted by kind and grouped by owner.
#[derive(Debug, Clone)]
pub struct PrefsScan {
    pub profile: String,
    pub prefs_file: String,
    pub total: usize,
    pub exportable: usize,
    pub portable: usize,
    pub paths: usize,
    pub plugins: usize,
    pub sensitive: usize,
    pub groups: Vec<PrefGroup>,
    pub prefs: Vec<PrefEntry>,
}

/// The prefs of one owner (Zotero, the framework, or one plugin).
#[derive(Debug, Clone)]
pub struct PrefGroup {
    pub id: String,
    pub label: String,
    pub scope: PrefScope,
    pub plugin: Option<String>,
    pub total: usize,
    pub exportable: usize,
    pub paths: usize,
    pub sensitive: usize,
}

/// A path prefix to rewrite on restore.
#[derive(Debug, Clone)]
pub struct PathMapping {
    pub from: String,
    pub to: String,
}

/// What a restore applies.
#[derive(Debug, Clone)]
pub struct RestoreOptions {
    pub restore_paths: bool,
    pub mappings: Vec<PathMapping>,
}

/// What a restore would do.
#[derive(Debug, Clone)]
pub struct RestorePreview {
    pub backup_path: String,
    pub backup_items: usize,
    pub will_add: usize,
    pub will_modify: usize,
    pub unchanged: usize,
    pub skipped_paths: usize,
    pub path_items: Vec<PrefEntry>,
}

/// What a restore or save did.
#[derive(Debug, Clone)]
pub struct RestoreReport {
    pub applied: usize,
    pub added: usize,
    pub modified: usize,
    pub unchanged: usize,
    pub deleted: usize,
    pub skipped_paths: usize,
    pub backup_file: String,
}

/// A pref read from a file, with the index of its line.
#[derive(Debug, Clone)]
pub struct ParsedPref {
    pub entry: PrefEntry,
    pub line_index: usize,
}

// ---------------------------------------------------------------------
// Classification
// ---------------------------------------------------------------------

pub open spec fn strs_view(v: Seq<&str>) -> Seq<Seq<char>> {
    v.map_values(|s: &str| s@)
}

/// Zotero's own pref namespaces under `extensions.zotero.`.
pub open spec fn zotero_native_prefixes() -> Seq<Seq<char>> {
    seq![
        "extensions.zotero.attachment"@,
        "extensions.zotero.annotations"@,
        "extensions.zotero.automatic"@,
        "extensions.zotero.autorenamefiles"@,
        "extensions.zotero.baseattachmentpath"@,
        "extensions.zotero.cite"@,
        "extensions.zotero.databaseschema"@,
        "extensions.zotero.debug"@,
        "extensions.zotero.duplicatelibraries"@,
        "extensions.zotero.downloadautomatically"@,
        "extensions.zotero.downloadassociatedfiles"@,
        "extensions.zotero.export"@,
        "extensions.zotero.extensions"@,
        "extensions.zotero.file"@,
        "extensions.zotero.first"@,
        "extensions.zotero.hiddennotices"@,
        "extensions.zotero.http"@,
        "extensions.zotero.httpserver"@,
        "extensions.zotero.ignorelegacydatadir"@,
        "extensions.zotero.import"@,
        "extensions.zotero.integration"@,
        "extensions.zotero.itempaneheader"@,
        "extensions.zotero.keys"@,
        "extensions.zotero.launch"@,
        "extensions.zotero.lastrenameassociatedfile"@,
        "extensions.zotero.lastselectedprefpane"@,
        "extensions.zotero.lastviewedfolder"@,
        "extensions.zotero.local"@,
        "extensions.zotero.newitemtypemru"@,
        "extensions.zotero.note"@,
        "extensions.zotero.pane"@,
        "extensions.zotero.panes"@,
        "extensions.zotero.postupgradebannerversionshown"@,
        "extensions.zotero.preferences"@,
        "extensions.zotero.prefversion"@,
        "extensions.zotero.reader"@,
        "extensions.zotero.recentsavetargets"@,
        "extensions.zotero.recursivecollections"@,
        "extensions.zotero.saverelativeattachmentpath"@,
        "extensions.zotero.secondarysort"@,
        "extensions.zotero.showattachmentfilenames"@,
        "extensions.zotero.sidebarstate"@,
        "extensions.zotero.sourcelist"@,
        "extensions.zotero.sync"@,
        "extensions.zotero.tabs"@,
        "extensions.zotero.tagselector"@,
        "extensions.zotero.translators"@,
        "extensions.zotero.usedatadir"@,
        "extensions.zotero.datadir"@,
        "extensions.zotero.warn"@,
    ]
}

fn zotero_native() -> (res: Vec<&'static str>)
    ensures
        strs_view(res@) == zotero_native_prefixes(),
{
    let mut v: Vec<&'static str> = Vec::new();
    v.push("extensions.zotero.attachment");
    v.push("extensions.zotero.annotations");
    v.push("extensions.zotero.automatic");
    v.push("extensions.zotero.autorenamefiles");
    v.push("extensions.zotero.baseattachmentpath");
    v.push("extensions.zotero.cite");
    v.push("extensions.zotero.databaseschema");
    v.push("extensions.zotero.debug");
    v.push("extensions.zotero.duplicatelibraries");
    v.push("extensions.zotero.downloadautomatically");
    v.push("extensions.zotero.downloadassociatedfiles");
    v.push("extensions.zotero.export");
    v.push("extensions.zotero.extensions");
    v.push("extensions.zotero.file");
    v.push("extensions.zotero.first");
    v.push("extensions.zotero.hiddennotices");
    v.push("extensions.zotero.http");
    v.push("extensions.zotero.httpserver");
    v.push("extensions.zotero.ignorelegacydatadir");
    v.push("extensions.zotero.import");
    v.push("extensions.zotero.integration");
    v.push("extensions.zotero.itempaneheader");
    v.push("extensions.zotero.keys");
    v.push("extensions.zotero.launch");
    v.push("extensions.zotero.lastrenameassociatedfile");
    v.push("extensions.zotero.lastselectedprefpane");
    v.push("extensions.zotero.lastviewedfolder");
    v.push("extensions.zotero.local");
    v.push("extensions.zotero.newitemtypemru");
    v.push("extensions.zotero.note");
    v.push("extensions.zotero.pane");
    v.push("extensions.zotero.panes");
    v.push("extensions.zotero.postupgradebannerversionshown");
    v.push("extensions.zotero.preferences");
    v.push("extensions.zotero.prefversion");
    v.push("extensions.zotero.reader");
    v.push("extensions.zotero.recentsavetargets");
    v.push("extensions.zotero.recursivecollections");
    v.push("extensions.zotero.saverelativeattachmentpath");
    v.push("extensions.zotero.secondarysort");
    v.push("extensions.zotero.showattachmentfilenames");
    v.push("extensions.zotero.sidebarstate");
    v.push("extensions.zotero.sourcelist");
    v.push("extensions.zotero.sync");
    v.push("extensions.zotero.tabs");
    v.push("extensions.zotero.tagselector");
    v.push("extensions.zotero.translators");
    v.push("extensions.zotero.usedatadir");
    v.push("extensions.zotero.datadir");
    v.push("extensions.zotero.warn");
    assert(strs_view(v@) =~= zotero_native_prefixes());
    v
}

/// The application framework's own namespaces under `extensions.`.
pub open spec fn framework_native_prefixes() -> Seq<Seq<char>> {
    seq![
        "extensions.blocklist"@,
        "extensions.databaseschema"@,
        "extensions.lastappbuildid"@,
        "extensions.lastappversion"@,
        "extensions.lastplatformversion"@,
        "extensions.pendingoperations"@,
        "extensions.signaturecheckpoint"@,
        "extensions.systemaddonset"@,
        "extensions.ui"@,
        "extensions.webextensions"@,
        "extensions.zoteroopenofficeintegration"@,
        "extensions.zoterowinwordintegration"@,
    ]
}

fn framework_native() -> (res: Vec<&'static str>)
    ensures
        strs_view(res@) == framework_native_prefixes(),
{
    let mut v: Vec<&'static str> = Vec::new();
    v.push("extensions.blocklist");
    v.push("extensions.databaseschema");
    v.push("extensions.lastappbuildid");
    v.push("extensions.lastappversion");
    v.push("extensions.lastplatformversion");
    v.push("extensions.pendingoperations");
    v.push("extensions.signaturecheckpoint");
    v.push("extensions.systemaddonset");
    v.push("extensions.ui");
    v.push("extensions.webextensions");
    v.push("extensions.zoteroopenofficeintegration");
    v.push("extensions.zoterowinwordintegration");
    assert(strs_view(v@) =~= framework_native_prefixes());
    v
}

/// Words that mark a pref key as holding a credential or identity.
pub open spec fn sensitive_terms_spec() -> Seq<Seq<char>> {
    seq![
        "password"@,
        "passwd"@,
        "secret"@,
        "token"@,
        "accesstoken"@,
        "refreshtoken"@,
        "credential"@,
        "cookie"@,
        "session"@,
        "oauth"@,
        "username"@,
        "email"@,
        "account"@,
    ]
}

fn sensitive_terms() -> (res: Vec<&'static str>)
    ensures
        strs_view(res@) == sensitive_terms_spec(),
{
    let mut v: Vec<&'static str> = Vec::new();
    v.push("password");
    v.push("passwd");
    v.push("secret");
    v.push("token");
    v.push("accesstoken");
    v.push("refreshtoken");
    v.push("credential");
    v.push("cookie");
    v.push("session");
    v.push("oauth");
    v.push("username");
    v.push("email");
    v.push("account");
    assert(strs_view(v@) =~= sensitive_terms_spec());
    v
}

/// `s` starts with one of `prefixes`.
pub open spec fn starts_with_any(s: Seq<char>, prefixes: Seq<Seq<char>>) -> bool {
    exists|i: int| 0 <= i < prefixes.len() && starts_with(s, #[trigger] prefixes[i])
}

/// `s` contains one of `terms`.
pub open spec fn contains_any(s: Seq<char>, terms: Seq<Seq<char>>) -> bool {
    exists|i: int| 0 <= i < terms.len() && contains(s, #[trigger] terms[i])
}

fn starts_with_any_exec(s: &Vec<char>, prefixes: &Vec<&'static str>) -> (res: bool)
    ensures
        res == starts_with_any(s@, strs_view(prefixes@)),
{
    let ghost pv = strs_view(prefixes@);
    let mut i: usize = 0;
    while i < prefixes.len()
        invariant
            i <= prefixes.len(),
            pv == strs_view(prefixes@),
            forall|j: int| 0 <= j < i ==> !starts_with(s@, #[trigger] pv[j]),
        decreases prefixes.len() - i,
    {
        let p = chars_of(prefixes[i]);
        assert(pv[i as int] == p@);
        if starts_with_chars(s, &p) {
            return true;
        }
        i += 1;
    }
    false
}

fn contains_any_exec(s: &Vec<char>, terms: &Vec<&'static str>) -> (res: bool)
    ensures
        res == contains_any(s@, strs_view(terms@)),
{
    let ghost tv = strs_view(terms@);
    let mut i: usize = 0;
    while i < terms.len()
        invariant
            i <= terms.len(),
            tv == strs_view(terms@),
            forall|j: int| 0 <= j < i ==> !contains(s@, #[trigger] tv[j]),
        decreases terms.len() - i,
    {
        let p = chars_of(terms[i]);
        assert(tv[i as int] == p@);
        if contains_chars(s, &p) {
            return true;
        }
        i += 1;
    }
    false
}

/// `s` split at every `.` (`str::split('.')`).
pub open spec fn dot_segments(s: Seq<char>) -> Seq<Seq<char>>
    decreases s.len(),
{
    match find(s, seq!['.']) {
        Some(i) => if 0 <= i < s.len() {
            seq![s.take(i)] + dot_segments(s.skip(i + 1))
        } else {
            seq![s]
        },
        None => seq![s],
    }
}

/// The `n`-th dot-separated segment of `s`.
pub open spec fn dot_segment(s: Seq<char>, n: int) -> Option<Seq<char>> {
    if 0 <= n < dot_segments(s).len() {
        Some(dot_segments(s)[n])
    } else {
        None
    }
}

fn dot_segment_exec(s: &Vec<char>, n: usize) -> (res: Option<Vec<char>>)
    ensures
        match res {
            Some(v) => dot_segment(s@, n as int) == Some(v@),
            None => dot_segment(s@, n as int) is None,
        },
    decreases s.len(),
{
    let dot = crate::text::char_vec1('.');
    match find_chars(s, &dot) {
        Some(i) => {
            proof {
                lemma_find_from_props(s@, dot@, 0);
                assert(crate::text::matches_at(s@, dot@, i as int));
            }
            if n == 0 {
                let v = slice_chars(s, 0, i);
                assert(v@ =~= s@.take(i as int));
                Some(v)
            } else {
                let rest = slice_chars(s, i + 1, s.len());
                assert(rest@ =~= s@.skip(i + 1));
                let r = dot_segment_exec(&rest, n - 1);
                proof {
                    let segs = dot_segments(s@);
                    assert(segs == seq![s@.take(i as int)] + dot_segments(rest@));
                }
                r
            }
        },
        None => {
            if n == 0 {
                Some(slice_chars(s, 0, s.len()))
            } else {
                None
            }
        },
    }
}

/// The plugin a key belongs to: the segment after `extensions.zotero.` (or
/// after `extensions.`) unless the key is in one of Zotero's or the
/// framework's own namespaces (ASCII case ignored).
pub open spec fn plugin_of(key: Seq<char>) -> Option<Seq<char>> {
    let lower = lower_seq(key);
    if starts_with(lower, "extensions.zotero."@) {
        if starts_with_any(lower, zotero_native_prefixes()) {
            None
        } else {
            dot_segment(key, 2)
        }
    } else if starts_with(lower, "extensions."@) {
        if starts_with_any(lower, framework_native_prefixes()) {
            None
        } else {
            dot_segment(key, 1)
        }
    } else {
        None
    }
}

/// The plugin a pref key belongs to, if any.
pub fn plugin_for(key: &str) -> (res: Option<String>)
    ensures
        match res {
            Some(p) => plugin_of(key@) == Some(p@),
            None => plugin_of(key@) is None,
        },
{
    let k = chars_of(key);
    let lower = ascii_lower_chars(&k);
    if starts_with_chars(&lower, &chars_of("extensions.zotero.")) {
        if starts_with_any_exec(&lower, &zotero_native()) {
            return None;
        }
        return match dot_segment_exec(&k, 2) {
            Some(v) => Some(string_of(v.as_slice())),
            None => None,
        };
    }
    if starts_with_chars(&lower, &chars_of("extensions.")) {
        if starts_with_any_exec(&lower, &framework_native()) {
            return None;
        }
        return match dot_segment_exec(&k, 1) {
            Some(v) => Some(string_of(v.as_slice())),
            None => None,
        };
    }
    None
}

/// Who a key belongs to.
pub open spec fn scope_of(key: Seq<char>) -> PrefScope {
    let lower = lower_seq(key);
    if starts_with(lower, "extensions.zotero."@) {
        if plugin_of(key) is Some {
            PrefScope::Plugin
        } else {
            PrefScope::Zotero
        }
    } else if starts_with(lower, "extensions."@) {
        if plugin_of(key) is Some {
            PrefScope::Plugin
        } else {
            PrefScope::Browser
        }
    } else if starts_with(lower, "browser."@) || starts_with(lower, "app."@) {
        PrefScope::Browser
    } else {
        PrefScope::Unknown
    }
}

pub fn scope_for(key: &str) -> (res: PrefScope)
    ensures
        res == scope_of(key@),
{
    let k = chars_of(key);
    let lower = ascii_lower_chars(&k);
    if starts_with_chars(&lower, &chars_of("extensions.zotero.")) {
        if plugin_for(key).is_some() {
            PrefScope::Plugin
        } else {
            PrefScope::Zotero
        }
    } else if starts_with_chars(&lower, &chars_of("extensions.")) {
        if plugin_for(key).is_some() {
            PrefScope::Plugin
        } else {
            PrefScope::Browser
        }
    } else if starts_with_chars(&lower, &chars_of("browser.")) || starts_with_chars(
        &lower,
        &chars_of("app."),
    ) {
        PrefScope::Browser
    } else {
        PrefScope::Unknown
    }
}

/// A (lowercased) key that names a credential or an identity; API keys
/// count, the local API's settings do not.
pub open spec fn sensitive_key(key: Seq<char>) -> bool {
    contains_any(key, sensitive_terms_spec()) || ((contains(key, "apikey"@) || contains(
        key,
        "api_key"@,
    )) && !contains(key, "localapi"@))
}

pub fn is_sensitive_key(key: &str) -> (res: bool)
    ensures
        res == sensitive_key(key@),
{
    let k = chars_of(key);
    contains_any_exec(&k, &sensitive_terms()) || ((contains_chars(&k, &chars_of("apikey"))
        || contains_chars(&k, &chars_of("api_key"))) && !contains_chars(
        &k,
        &chars_of("localapi"),
    ))
}

/// Path shapes: a drive (`X:\` or `X:/`), home, the usual Unix roots, a
/// file URL or a UNC share; URLs and JSON are not paths.
pub open spec fn path_like(value: Seq<char>) -> bool {
    let lower = lower_seq(value);
    if starts_with(lower, "http://"@) || starts_with(lower, "https://"@) || starts_with(
        lower,
        "zotero://"@,
    ) || starts_with(value, "{"@) || starts_with(value, "["@) {
        false
    } else {
        (value.len() >= 3 && (value[0] as u32) < 128 && value[1] == ':' && (value[2] == '\\'
            || value[2] == '/')) || starts_with(value, "~/"@) || starts_with(value, "/Users/"@)
            || starts_with(value, "/Volumes/"@) || starts_with(value, "/home/"@) || starts_with(
            value,
            "/mnt/"@,
        ) || starts_with(value, "/media/"@) || starts_with(value, "/tmp/"@) || starts_with(
            value,
            "file:///"@,
        ) || starts_with(value, "\\\\"@)
    }
}

pub fn looks_like_path(value: &str) -> (res: bool)
    ensures
        res == path_like(value@),
{
    let v = chars_of(value);
    let lower = ascii_lower_chars(&v);
    if starts_with_chars(&lower, &chars_of("http://")) || starts_with_chars(
        &lower,
        &chars_of("https://"),
    ) || starts_with_chars(&lower, &chars_of("zotero://")) || starts_with_chars(
        &v,
        &chars_of("{"),
    ) || starts_with_chars(&v, &chars_of("[")) {
        return false;
    }
    (v.len() >= 3 && (v[0] as u32) < 128 && v[1] == ':' && (v[2] == '\\' || v[2] == '/'))
        || starts_with_chars(&v, &chars_of("~/")) || starts_with_chars(&v, &chars_of("/Users/"))
        || starts_with_chars(&v, &chars_of("/Volumes/")) || starts_with_chars(
        &v,
        &chars_of("/home/"),
    ) || starts_with_chars(&v, &chars_of("/mnt/")) || starts_with_chars(
        &v,
        &chars_of("/media/"),
    ) || starts_with_chars(&v, &chars_of("/tmp/")) || starts_with_chars(
        &v,
        &chars_of("file:///"),
    ) || starts_with_chars(&v, &chars_of("\\\\"))
}

/// A string value that, trimmed, is a non-empty path.
pub open spec fn path_value(v: PrefValueV) -> bool {
    match v {
        PrefValueV::Str(s) => trim(s, Trim::Ws).len() > 0 && path_like(trim(s, Trim::Ws)),
        _ => false,
    }
}

fn is_path_value(v: &PrefValue) -> (res: bool)
    ensures
        res == path_value(value_view(*v)),
{
    match v {
        PrefValue::String(s) => {
            let c = chars_of(s.as_str());
            let t = trim_chars(&c, Trim::Ws);
            t.len() > 0 && looks_like_path(string_of(t.as_slice()).as_str())
        },
        _ => false,
    }
}

/// The path shapes: a drive letter with `:\` or `:/`, a home directory
/// (`~/`), the usual Unix and macOS roots, a file URL or a UNC share.
pub open spec fn path_shaped(v: Seq<char>) -> bool {
    ||| (v.len() >= 3 && (('a' <= v[0] && v[0] <= 'z') || ('A' <= v[0] && v[0] <= 'Z'))
        && v[1] == ':' && (v[2] == '\\' || v[2] == '/'))
    ||| starts_with(v, "~/"@)
    ||| starts_with(v, "/Users/"@)
    ||| starts_with(v, "/Volumes/"@)
    ||| starts_with(v, "/home/"@)
    ||| starts_with(v, "/mnt/"@)
    ||| starts_with(v, "/media/"@)
    ||| starts_with(v, "/tmp/"@)
    ||| starts_with(v, "file:///"@)
    ||| starts_with(v, "\\\\"@)
}

/// Every value of a path shape is taken for a path: a macOS home such as
/// `/Users/alice/Zotero`, a Linux home, a drive path, a file URL, a share.
pub proof fn law_path_prefixes_are_paths(v: Seq<char>)
    requires
        path_shaped(v),
    ensures
        path_like(v),
        v.len() > 0,
{
    reveal_strlit("~/");
    reveal_strlit("/Users/");
    reveal_strlit("/Volumes/");
    reveal_strlit("/home/");
    reveal_strlit("/mnt/");
    reveal_strlit("/media/");
    reveal_strlit("/tmp/");
    reveal_strlit("file:///");
    reveal_strlit("\\\\");
    reveal_strlit("http://");
    reveal_strlit("https://");
    reveal_strlit("zotero://");
    reveal_strlit("{");
    reveal_strlit("[");
    assert(v.len() > 0);
    let l = lower_seq(v);
    assert(l[0] == crate::text::ascii_lower(v[0]));
    if v.len() >= 3 && v[1] == ':' {
        assert(l[1] == ':');
        assert(!starts_with(l, "http://"@)) by {
            if starts_with(l, "http://"@) {
                assert(l.take(7)[1] == l[1]);
            }
        }
        assert(!starts_with(l, "https://"@)) by {
            if starts_with(l, "https://"@) {
                assert(l.take(8)[1] == l[1]);
            }
        }
        assert(!starts_with(l, "zotero://"@)) by {
            if starts_with(l, "zotero://"@) {
                assert(l.take(9)[1] == l[1]);
            }
        }
    } else {
        assert(v[0] == '~' || v[0] == '/' || v[0] == 'f' || v[0] == '\\') by {
            if starts_with(v, "~/"@) {
                assert(v.take(2)[0] == v[0]);
            } else if starts_with(v, "/Users/"@) {
                assert(v.take(7)[0] == v[0]);
            } else if starts_with(v, "/Volumes/"@) {
                assert(v.take(9)[0] == v[0]);
            } else if starts_with(v, "/home/"@) {
                assert(v.take(6)[0] == v[0]);
            } else if starts_with(v, "/mnt/"@) {
                assert(v.take(5)[0] == v[0]);
            } else if starts_with(v, "/media/"@) {
                assert(v.take(7)[0] == v[0]);
            } else if starts_with(v, "/tmp/"@) {
                assert(v.take(5)[0] == v[0]);
            } else if starts_with(v, "file:///"@) {
                assert(v.take(8)[0] == v[0]);
            } else {
                assert(v.take(2)[0] == v[0]);
            }
        }
        assert(!starts_with(l, "http://"@)) by {
            if starts_with(l, "http://"@) {
                assert(l.take(7)[0] == l[0]);
            }
        }
        assert(!starts_with(l, "https://"@)) by {
            if starts_with(l, "https://"@) {
                assert(l.take(8)[0] == l[0]);
            }
        }
        assert(!starts_with(l, "zotero://"@)) by {
            if starts_with(l, "zotero://"@) {
                assert(l.take(9)[0] == l[0]);
            }
        }
    }
    assert(!starts_with(v, "{"@)) by {
        if starts_with(v, "{"@) {
            assert(v.take(1)[0] == v[0]);
        }
    }
    assert(!starts_with(v, "["@)) by {
        if starts_with(v, "["@) {
            assert(v.take(1)[0] == v[0]);
        }
    }
}

/// A string pref whose value has a path shape (and no surrounding
/// whitespace) and whose key is not sensitive is classified as a path, so
/// restore path mappings apply to it.
pub proof fn law_path_values_are_path_prefs(key: Seq<char>, s: Seq<char>)
    requires
        path_shaped(s),
        trim(s, Trim::Ws) == s,
        !sensitive_key(lower_seq(key)),
    ensures
        kind_of(key, PrefValueV::Str(s)) == PrefKind::Path,
{
    law_path_prefixes_are_paths(s);
}

/// The kind of a pref: sensitive by its key, else a path by its value,
/// else portable.
pub open spec fn kind_of(key: Seq<char>, v: PrefValueV) -> PrefKind {
    if sensitive_key(lower_seq(key)) {
        PrefKind::Sensitive
    } else if path_value(v) {
        PrefKind::Path
    } else {
        PrefKind::Portable
    }
}

/// An entry is classified when its kind, scope and plugin follow from its
/// key and value.
pub open spec fn classified(e: PrefEntry) -> bool {
    &&& e.kind == kind_of(e.key@, value_view(e.value))
    &&& e.scope == scope_of(e.key@)
    &&& opt_str(e.plugin) == plugin_of(e.key@)
}

pub open spec fn opt_str(o: Option<String>) -> Option<Seq<char>> {
    match o {
        Some(s) => Some(s@),
        None => None,
    }
}

/// Sets an entry's kind, scope and plugin from its key and value.
pub fn classify(entry: &mut PrefEntry)
    ensures
        final(entry).key == old(entry).key,
        value_view(final(entry).value) == value_view(old(entry).value),
        classified(*final(entry)),
{
    let k = chars_of(entry.key.as_str());
    let lower = ascii_lower_chars(&k);
    entry.scope = scope_for(entry.key.as_str());
    entry.plugin = plugin_for(entry.key.as_str());
    if is_sensitive_key(string_of(lower.as_slice()).as_str()) {
        entry.kind = PrefKind::Sensitive;
    } else if is_path_value(&entry.value) {
        entry.kind = PrefKind::Path;
    } else {
        entry.kind = PrefKind::Portable;
    }
}

// ---------------------------------------------------------------------
// Reading prefs.js
// ---------------------------------------------------------------------

proof fn lemma_starts_with_char(s: Seq<char>, c: char)
    ensures
        starts_with(s, seq![c]) == (s.len() > 0 && s[0] == c),
{
    if s.len() > 0 && s[0] == c {
        assert(s.take(1) =~= seq![c]);
    }
    if starts_with(s, seq![c]) {
        assert(s.take(1)[0] == s[0]);
    }
}

/// Index of the first `e` or `E` of `s`, or its length.
pub open spec fn exp_pos(s: Seq<char>) -> int
    decreases s.len(),
{
    if s.len() == 0 || s[0] == 'e' || s[0] == 'E' {
        0
    } else {
        1 + exp_pos(s.drop_first())
    }
}

/// Digits with at most one `.` and at least one digit.
pub open spec fn mantissa_ok(m: Seq<char>) -> bool {
    match find(m, seq!['.']) {
        Some(d) => all_digits(m.take(d)) && all_digits(m.skip(d + 1)) && (d > 0 || m.len() > d
            + 1),
        None => m.len() > 0 && all_digits(m),
    }
}

/// `e` or `E`, an optional sign, one or more digits.
pub open spec fn exponent_ok(x: Seq<char>) -> bool {
    x.len() >= 2 && {
        let y = x.skip(1);
        let z = if y[0] == '+' || y[0] == '-' {
            y.skip(1)
        } else {
            y
        };
        z.len() > 0 && all_digits(z)
    }
}

/// Decimal float syntax as `f64::from_str` reads it (for text without the
/// `inf`/`nan` words): an optional sign, a mantissa, an optional exponent.
pub open spec fn float_literal(t: Seq<char>) -> bool {
    let b = if t.len() > 0 && (t[0] == '+' || t[0] == '-') {
        t.skip(1)
    } else {
        t
    };
    let e = exp_pos(b);
    mantissa_ok(b.take(e)) && (e == b.len() || exponent_ok(b.skip(e)))
}

proof fn lemma_exp_pos(s: Seq<char>)
    ensures
        0 <= exp_pos(s) <= s.len(),
        forall|i: int| 0 <= i < exp_pos(s) ==> s[i] != 'e' && s[i] != 'E',
        exp_pos(s) < s.len() ==> (s[exp_pos(s)] == 'e' || s[exp_pos(s)] == 'E'),
    decreases s.len(),
{
    if s.len() > 0 && s[0] != 'e' && s[0] != 'E' {
        lemma_exp_pos(s.drop_first());
        assert forall|i: int| 0 <= i < exp_pos(s) implies s[i] != 'e' && s[i] != 'E' by {
            if i > 0 {
                assert(s[i] == s.drop_first()[i - 1]);
            }
        }
    }
}

fn all_digits_exec(s: &Vec<char>) -> (res: bool)
    ensures
        res == all_digits(s@),
{
    let mut i: usize = 0;
    while i < s.len()
        invariant
            i <= s.len(),
            forall|j: int| 0 <= j < i ==> crate::text::is_ascii_digit(#[trigger] s@[j]),
        decreases s.len() - i,
    {
        if !('0' <= s[i] && s[i] <= '9') {
            return false;
        }
        i += 1;
    }
    true
}

fn float_literal_exec(t: &Vec<char>) -> (res: bool)
    ensures
        res == float_literal(t@),
{
    let b = if t.len() > 0 && (t[0] == '+' || t[0] == '-') {
        slice_chars(t, 1, t.len())
    } else {
        slice_chars(t, 0, t.len())
    };
    assert(b@ =~= (if t@.len() > 0 && (t@[0] == '+' || t@[0] == '-') {
        t@.skip(1)
    } else {
        t@
    }));
    proof {
        lemma_exp_pos(b@);
    }
    let mut e: usize = 0;
    while e < b.len() && b[e] != 'e' && b[e] != 'E'
        invariant
            e <= b.len(),
            e <= exp_pos(b@),
            0 <= exp_pos(b@) <= b@.len(),
            forall|i: int| 0 <= i < exp_pos(b@) ==> b@[i] != 'e' && b@[i] != 'E',
            exp_pos(b@) < b@.len() ==> (b@[exp_pos(b@)] == 'e' || b@[exp_pos(b@)] == 'E'),
        decreases b.len() - e,
    {
        e += 1;
    }
    let m = slice_chars(&b, 0, e);
    assert(m@ =~= b@.take(e as int));
    let dot = crate::text::char_vec1('.');
    let mant = match find_chars(&m, &dot) {
        Some(d) => {
            proof {
                lemma_find_from_props(m@, dot@, 0);
                assert(crate::text::matches_at(m@, dot@, d as int));
            }
            let before = slice_chars(&m, 0, d);
            let after = slice_chars(&m, d + 1, m.len());
            assert(before@ =~= m@.take(d as int));
            assert(after@ =~= m@.skip(d + 1));
            all_digits_exec(&before) && all_digits_exec(&after) && (d > 0 || m.len() > d + 1)
        },
        None => m.len() > 0 && all_digits_exec(&m),
    };
    if !mant {
        return false;
    }
    if e == b.len() {
        return true;
    }
    if b.len() - e < 2 {
        return false;
    }
    let y = slice_chars(&b, e + 1, b.len());
    assert(y@ =~= b@.skip(e as int).skip(1));
    let z = if y[0] == '+' || y[0] == '-' {
        slice_chars(&y, 1, y.len())
    } else {
        slice_chars(&y, 0, y.len())
    };
    assert(z@ =~= (if y@[0] == '+' || y@[0] == '-' {
        y@.skip(1)
    } else {
        y@
    }));
    z.len() > 0 && all_digits_exec(&z)
}

/// Index of the first `)`, `;` or whitespace character of `s`, or its
/// length: where a number literal ends.
pub open spec fn value_end(s: Seq<char>) -> int
    decreases s.len(),
{
    if s.len() == 0 || s[0] == ')' || s[0] == ';' || crate::text::is_ws(s[0]) {
        0
    } else {
        1 + value_end(s.drop_first())
    }
}

proof fn lemma_value_end(s: Seq<char>)
    ensures
        0 <= value_end(s) <= s.len(),
        forall|i: int|
            0 <= i < value_end(s) ==> s[i] != ')' && s[i] != ';' && !crate::text::is_ws(s[i]),
        value_end(s) < s.len() ==> (s[value_end(s)] == ')' || s[value_end(s)] == ';'
            || crate::text::is_ws(s[value_end(s)])),
    decreases s.len(),
{
    if !(s.len() == 0 || s[0] == ')' || s[0] == ';' || crate::text::is_ws(s[0])) {
        lemma_value_end(s.drop_first());
        assert forall|i: int| 0 <= i < value_end(s) implies s[i] != ')' && s[i] != ';'
            && !crate::text::is_ws(s[i]) by {
            if i > 0 {
                assert(s[i] == s.drop_first()[i - 1]);
            }
        }
    }
}

/// A value literal at the start of `s0` (after whitespace): a JS string,
/// `true`, `false`, a float (when the literal holds a `.`) or an `i64`;
/// with the text after it.
pub open spec fn parse_value_spec(s0: Seq<char>) -> Option<(PrefValueV, Seq<char>)> {
    let s = trim_start(s0, Trim::Ws);
    if starts_with(s, seq!['"']) {
        match js_decode(s.skip(1)) {
            Some((v, rest)) => Some((PrefValueV::Str(v), rest)),
            None => None,
        }
    } else if starts_with(s, "true"@) {
        Some((PrefValueV::Bool(true), s.skip("true"@.len() as int)))
    } else if starts_with(s, "false"@) {
        Some((PrefValueV::Bool(false), s.skip("false"@.len() as int)))
    } else {
        let end = value_end(s);
        let raw = s.take(end);
        if has_char(raw, '.') {
            if float_literal(raw) {
                Some((PrefValueV::Float(raw), s.skip(end)))
            } else {
                None
            }
        } else {
            match parse_i64_spec(raw) {
                Some(i) => Some((PrefValueV::Integer(i), s.skip(end))),
                None => None,
            }
        }
    }
}

/// Reads a value literal; the position is where the text after it starts.
pub fn parse_value(s0: &Vec<char>) -> (res: Option<(PrefValue, usize)>)
    ensures
        match parse_value_spec(s0@) {
            Some((v, rest)) => res matches Some((val, end)) && value_view(val) == v && end
                <= s0@.len() && rest == s0@.skip(end as int),
            None => res is None,
        },
{
    proof {
        crate::text::lemma_trim_start_len(s0@, Trim::Ws);
        reveal_strlit("true");
        reveal_strlit("false");
    }
    let s = trim_start_chars(s0, Trim::Ws);
    proof {
        lemma_starts_with_char(s@, '"');
    }
    let off: usize = s0.len() - s.len();
    assert(s0@.skip(off as int) =~= s@);
    if s.len() > 0 && s[0] == '"' {
        assert(starts_with(s@, seq!['"']));
        return match js_decode_from(&s, 1) {
            Some((v, end)) => {
                assert(s0@.skip(off + end) =~= s@.skip(end as int));
                Some((PrefValue::String(string_of(v.as_slice())), off + end))
            },
            None => None,
        };
    }
    assert(!starts_with(s@, seq!['"']));
    let t = chars_of("true");
    if starts_with_chars(&s, &t) {
        assert(s0@.skip(off + 4) =~= s@.skip(4));
        return Some((PrefValue::Bool(true), off + 4));
    }
    let f = chars_of("false");
    if starts_with_chars(&s, &f) {
        assert(s0@.skip(off + 5) =~= s@.skip(5));
        return Some((PrefValue::Bool(false), off + 5));
    }
    proof {
        lemma_value_end(s@);
    }
    let mut end: usize = 0;
    while end < s.len() && s[end] != ')' && s[end] != ';' && !crate::text::is_ws_char(s[end])
        invariant
            end <= s.len(),
            end <= value_end(s@),
            0 <= value_end(s@) <= s@.len(),
            forall|i: int|
                0 <= i < value_end(s@) ==> s@[i] != ')' && s@[i] != ';' && !crate::text::is_ws(
                    s@[i],
                ),
            value_end(s@) < s@.len() ==> (s@[value_end(s@)] == ')' || s@[value_end(s@)] == ';'
                || crate::text::is_ws(s@[value_end(s@)])),
        decreases s.len() - end,
    {
        end += 1;
    }
    let raw = slice_chars(&s, 0, end);
    assert(raw@ =~= s@.take(end as int));
    assert(s0@.skip(off + end) =~= s@.skip(end as int));
    if has_char_chars(&raw, '.') {
        if float_literal_exec(&raw) {
            Some((PrefValue::Float(string_of(raw.as_slice())), off + end))
        } else {
            None
        }
    } else {
        match parse_i64_chars(&raw) {
            Some(i) => Some((PrefValue::Integer(i), off + end)),
            None => None,
        }
    }
}

/// The key and value of a `user_pref("key", value)` line.
pub open spec fn pref_line_parts(line: Seq<char>) -> Option<(Seq<char>, PrefValueV)> {
    let l = trim(line, Trim::Ws);
    if !starts_with(l, "user_pref("@) {
        None
    } else {
        let r = trim_start(l.skip("user_pref("@.len() as int), Trim::Ws);
        if !starts_with(r, seq!['"']) {
            None
        } else {
            match js_decode(r.skip(1)) {
                None => None,
                Some((key, rest)) => {
                    let r2 = trim_start(rest, Trim::Ws);
                    if !starts_with(r2, seq![',']) {
                        None
                    } else {
                        match parse_value_spec(trim_start(r2.skip(1), Trim::Ws)) {
                            Some((v, _)) => Some((key, v)),
                            None => None,
                        }
                    }
                },
            }
        }
    }
}

/// Reads one `prefs.js` line into a classified entry.
pub fn parse_pref_line(line: &Vec<char>) -> (res: Option<PrefEntry>)
    ensures
        match pref_line_parts(line@) {
            Some((k, v)) => res matches Some(e) && e.key@ == k && value_view(e.value) == v
                && classified(e),
            None => res is None,
        },
{
    proof {
        reveal_strlit("user_pref(");
    }
    let l = trim_chars(line, Trim::Ws);
    let p = chars_of("user_pref(");
    if !starts_with_chars(&l, &p) {
        return None;
    }
    let after = slice_chars(&l, 10, l.len());
    assert(after@ =~= l@.skip(10));
    let r = trim_start_chars(&after, Trim::Ws);
    proof {
        lemma_starts_with_char(r@, '"');
    }
    if !(r.len() > 0 && r[0] == '"') {
        return None;
    }
    assert(starts_with(r@, seq!['"']));
    let (key, end) = match js_decode_from(&r, 1) {
        Some(x) => x,
        None => return None,
    };
    let rest = slice_chars(&r, end, r.len());
    assert(rest@ =~= r@.skip(end as int));
    let r2 = trim_start_chars(&rest, Trim::Ws);
    proof {
        lemma_starts_with_char(r2@, ',');
    }
    if !(r2.len() > 0 && r2[0] == ',') {
        return None;
    }
    assert(starts_with(r2@, seq![',']));
    let r3a = slice_chars(&r2, 1, r2.len());
    assert(r3a@ =~= r2@.skip(1));
    let r3 = trim_start_chars(&r3a, Trim::Ws);
    match parse_value(&r3) {
        Some((value, _)) => {
            let mut entry = PrefEntry {
                key: string_of(key.as_slice()),
                value,
                kind: PrefKind::Unknown,
                scope: PrefScope::Unknown,
                plugin: None,
            };
            classify(&mut entry);
            Some(entry)
        },
        None => None,
    }
}

/// The prefs of a file text, each with the index of its line, in order.
pub open spec fn parsed_prefs(ls: Seq<Seq<char>>) -> Seq<(int, Seq<char>, PrefValueV)>
    decreases ls.len(),
{
    if ls.len() == 0 {
        Seq::empty()
    } else {
        let rest = parsed_prefs(ls.drop_last());
        match pref_line_parts(ls.last()) {
            Some((k, v)) => rest.push((ls.len() - 1, k, v)),
            None => rest,
        }
    }
}

/// The parsed prefs match their description.
pub open spec fn parsed_match(ps: Seq<ParsedPref>, spec: Seq<(int, Seq<char>, PrefValueV)>) -> bool {
    &&& ps.len() == spec.len()
    &&& forall|j: int|
        0 <= j < ps.len() ==> {
            &&& (#[trigger] ps[j]).line_index == spec[j].0
            &&& ps[j].entry.key@ == spec[j].1
            &&& value_view(ps[j].entry.value) == spec[j].2
            &&& classified(ps[j].entry)
        }
}

/// Reads every `user_pref` line of a `prefs.js` text.
pub fn parse_prefs(text: &str) -> (res: Vec<ParsedPref>)
    ensures
        parsed_match(res@, parsed_prefs(crate::text::lines(text@))),
{
    let t = chars_of(text);
    let ls = crate::text::lines_of(&t);
    let ghost lv = ls@.map_values(|l: Vec<char>| l@);
    let mut out: Vec<ParsedPref> = Vec::new();
    let mut i: usize = 0;
    assert(lv.take(0) =~= Seq::<Seq<char>>::empty());
    while i < ls.len()
        invariant
            i <= ls.len(),
            lv == ls@.map_values(|l: Vec<char>| l@),
            parsed_match(out@, parsed_prefs(lv.take(i as int))),
        decreases ls.len() - i,
    {
        proof {
            assert(lv.take(i + 1).drop_last() =~= lv.take(i as int));
            assert(lv.take(i + 1).last() == ls@[i as int]@);
        }
        match parse_pref_line(&ls[i]) {
            Some(entry) => {
                let ghost before = out@;
                out.push(ParsedPref { entry, line_index: i });
                proof {
                    let sp = parsed_prefs(lv.take(i + 1));
                    assert forall|j: int| 0 <= j < out@.len() implies {
                        &&& (#[trigger] out@[j]).line_index == sp[j].0
                        &&& out@[j].entry.key@ == sp[j].1
                        &&& value_view(out@[j].entry.value) == sp[j].2
                        &&& classified(out@[j].entry)
                    } by {
                        if j < before.len() {
                            assert(out@[j] == before[j]);
                        }
                    }
                }
            },
            None => {},
        }
        i += 1;
    }
    assert(lv.take(ls.len() as int) =~= lv);
    out
}

// ---------------------------------------------------------------------
// Writing prefs and mapping paths
// ---------------------------------------------------------------------

/// The `prefs.js` line of a pref.
pub open spec fn pref_line_text(key: Seq<char>, v: PrefValueV) -> Seq<char> {
    "user_pref(\""@ + js_escape(key) + "\", "@ + js_literal(v) + ");"@
}

/// The `prefs.js` line of a pref.
pub fn pref_line(key: &str, value: &PrefValue) -> (res: String)
    ensures
        res@ == pref_line_text(key@, value_view(*value)),
{
    let v = pref_line_chars(key, value);
    string_of(v.as_slice())
}

fn pref_line_chars(key: &str, value: &PrefValue) -> (res: Vec<char>)
    ensures
        res@ == pref_line_text(key@, value_view(*value)),
{
    let mut out: Vec<char> = Vec::new();
    push_str(&mut out, "user_pref(\"");
    let e = crate::zotero_prefs::escape_js_string(key);
    push_str(&mut out, e.as_str());
    push_str(&mut out, "\", ");
    let l = js_literal_chars(value);
    push_all(&mut out, &l);
    push_str(&mut out, ");");
    out
}

/// `value` starts with `prefix`, exactly or ignoring ASCII case.
pub open spec fn has_path_prefix(value: Seq<char>, prefix: Seq<char>) -> bool {
    starts_with(value, prefix) || starts_with(lower_seq(value), lower_seq(prefix))
}

pub fn starts_with_path_prefix(value: &str, prefix: &str) -> (res: bool)
    ensures
        res == has_path_prefix(value@, prefix@),
{
    let v = chars_of(value);
    let p = chars_of(prefix);
    if starts_with_chars(&v, &p) {
        return true;
    }
    let vl = ascii_lower_chars(&v);
    let pl = ascii_lower_chars(&p);
    starts_with_chars(&vl, &pl)
}

pub open spec fn mappings_view(m: Seq<PathMapping>) -> Seq<(Seq<char>, Seq<char>)> {
    m.map_values(|x: PathMapping| (x.from@, x.to@))
}

/// The value with the first matching mapping's prefix replaced (mappings
/// with a blank `from` are skipped); `None` when none matches.
pub open spec fn mapped_path(value: Seq<char>, mappings: Seq<(Seq<char>, Seq<char>)>) -> Option<
    Seq<char>,
>
    decreases mappings.len(),
{
    if mappings.len() == 0 {
        None
    } else {
        let (from, to) = mappings[0];
        if trim(from, Trim::Ws).len() > 0 && has_path_prefix(value, from) {
            Some(to + value.skip(from.len() as int))
        } else {
            mapped_path(value, mappings.drop_first())
        }
    }
}

pub fn map_path_value(value: &str, mappings: &Vec<PathMapping>) -> (res: Option<String>)
    ensures
        opt_str(res) == mapped_path(value@, mappings_view(mappings@)),
{
    let ghost mv = mappings_view(mappings@);
    let mut i: usize = 0;
    assert(mv.skip(0) =~= mv);
    while i < mappings.len()
        invariant
            i <= mappings.len(),
            mv == mappings_view(mappings@),
            mapped_path(value@, mv) == mapped_path(value@, mv.skip(i as int)),
        decreases mappings.len() - i,
    {
        let m = &mappings[i];
        proof {
            assert(mv.skip(i as int)[0] == mv[i as int]);
            assert(mv.skip(i as int).drop_first() =~= mv.skip(i + 1));
        }
        let f = chars_of(m.from.as_str());
        let ft = trim_chars(&f, Trim::Ws);
        if ft.len() > 0 && starts_with_path_prefix(value, m.from.as_str()) {
            let v = chars_of(value);
            proof {
                if starts_with(value@, m.from@) {
                } else {
                    assert(lower_seq(value@).take(m.from@.len() as int).len() == m.from@.len());
                }
            }
            let rest = slice_chars(&v, f.len(), v.len());
            assert(rest@ =~= value@.skip(m.from@.len() as int));
            let mut out = chars_of(m.to.as_str());
            push_all(&mut out, &rest);
            return Some(string_of(out.as_slice()));
        }
        i += 1;
    }
    None
}

/// An entry as a restore writes it: a path entry holding a string gets its
/// mapped value where a mapping matches; anything else is unchanged.
pub open spec fn mapped_value(kind: PrefKind, v: PrefValueV, mappings: Seq<(Seq<char>, Seq<char>)>) -> PrefValueV {
    if kind != PrefKind::Path {
        v
    } else {
        match v {
            PrefValueV::Str(s) => match mapped_path(s, mappings) {
                Some(m) => PrefValueV::Str(m),
                None => v,
            },
            _ => v,
        }
    }
}

pub fn apply_mappings(entry: PrefEntry, mappings: &Vec<PathMapping>) -> (res: PrefEntry)
    ensures
        res.key == entry.key,
        res.kind == entry.kind,
        res.scope == entry.scope,
        res.plugin == entry.plugin,
        value_view(res.value) == mapped_value(entry.kind, value_view(entry.value), mappings_view(mappings@)),
{
    if entry.kind != PrefKind::Path {
        return entry;
    }
    let mapped = match &entry.value {
        PrefValue::String(v) => map_path_value(v.as_str(), mappings),
        _ => None,
    };
    match mapped {
        Some(m) => PrefEntry { value: PrefValue::String(m), ..entry },
        None => entry,
    }
}

// ---------------------------------------------------------------------
// Sorted key lists (the order of a `BTreeMap<String, _>`)
// ---------------------------------------------------------------------

/// Lexicographic order of texts by character code.
pub open spec fn key_lt(a: Seq<char>, b: Seq<char>) -> bool
    decreases a.len(),
{
    if a.len() == 0 {
        b.len() > 0
    } else if b.len() == 0 {
        false
    } else if a[0] != b[0] {
        (a[0] as u32) < (b[0] as u32)
    } else {
        key_lt(a.drop_first(), b.drop_first())
    }
}

fn key_less(a: &Vec<char>, b: &Vec<char>) -> (res: bool)
    ensures
        res == key_lt(a@, b@),
{
    let mut i: usize = 0;
    assert(a@.skip(0) =~= a@);
    assert(b@.skip(0) =~= b@);
    while i < a.len() && i < b.len() && a[i] == b[i]
        invariant
            i <= a.len(),
            i <= b.len(),
            key_lt(a@, b@) == key_lt(a@.skip(i as int), b@.skip(i as int)),
        decreases a.len() - i,
    {
        assert(a@.skip(i as int).drop_first() =~= a@.skip(i + 1));
        assert(b@.skip(i as int).drop_first() =~= b@.skip(i + 1));
        i += 1;
    }
    if i == a.len() {
        return i < b.len();
    }
    if i == b.len() {
        return false;
    }
    (a[i] as u32) < (b[i] as u32)
}

/// `l`, sorted by key with each key once, after `BTreeMap::insert(k, v)`.
pub open spec fn sorted_insert<V>(l: Seq<(Seq<char>, V)>, k: Seq<char>, v: V) -> Seq<(Seq<char>, V)>
    decreases l.len(),
{
    if l.len() == 0 {
        seq![(k, v)]
    } else if l[0].0 == k {
        seq![(k, v)] + l.drop_first()
    } else if key_lt(k, l[0].0) {
        seq![(k, v)] + l
    } else {
        seq![l[0]] + sorted_insert(l.drop_first(), k, v)
    }
}

proof fn lemma_sorted_insert_at<V>(l: Seq<(Seq<char>, V)>, k: Seq<char>, v: V, i: int)
    requires
        0 <= i <= l.len(),
        forall|j: int| 0 <= j < i ==> (#[trigger] l[j]).0 != k && !key_lt(k, l[j].0),
    ensures
        sorted_insert(l, k, v) == l.take(i) + sorted_insert(l.skip(i), k, v),
    decreases i,
{
    if i == 0 {
        assert(l.take(0) + sorted_insert(l.skip(0), k, v) =~= sorted_insert(l, k, v)) by {
            assert(l.skip(0) =~= l);
        }
    } else {
        assert(l[0].0 != k && !key_lt(k, l[0].0));
        assert forall|j: int| 0 <= j < i - 1 implies (#[trigger] l.drop_first()[j]).0 != k
            && !key_lt(k, l.drop_first()[j].0) by {
            assert(l.drop_first()[j] == l[j + 1]);
        }
        lemma_sorted_insert_at(l.drop_first(), k, v, i - 1);
        assert(l.drop_first().skip(i - 1) =~= l.skip(i));
        assert(seq![l[0]] + l.drop_first().take(i - 1) =~= l.take(i));
    }
}

spec fn adds_view(l: Seq<(Vec<char>, PrefValue)>) -> Seq<(Seq<char>, PrefValueV)> {
    l.map_values(|e: (Vec<char>, PrefValue)| (e.0@, value_view(e.1)))
}

fn insert_addition(l: &mut Vec<(Vec<char>, PrefValue)>, k: Vec<char>, v: PrefValue)
    ensures
        adds_view(final(l)@) == sorted_insert(adds_view(old(l)@), k@, value_view(v)),
{
    let ghost lv = adds_view(l@);
    let mut i: usize = 0;
    while i < l.len() && !chars_eq(&l[i].0, &k) && !key_less(&k, &l[i].0)
        invariant
            i <= l.len(),
            lv == adds_view(l@),
            forall|j: int| 0 <= j < i ==> (#[trigger] lv[j]).0 != k@ && !key_lt(k@, lv[j].0),
        decreases l.len() - i,
    {
        i += 1;
    }
    proof {
        lemma_sorted_insert_at(lv, k@, value_view(v), i as int);
    }
    if i < l.len() && chars_eq(&l[i].0, &k) {
        let ghost kv = k@;
        let ghost vv = value_view(v);
        l.set(i, (k, v));
        proof {
            assert(lv.skip(i as int)[0].0 == kv);
            assert(adds_view(l@) =~= lv.take(i as int) + (seq![(kv, vv)] + lv.skip(i as int).drop_first()));
        }
    } else {
        let ghost kv = k@;
        let ghost vv = value_view(v);
        l.insert(i, (k, v));
        proof {
            if i < lv.len() {
                assert(lv.skip(i as int)[0] == lv[i as int]);
                assert(adds_view(l@) =~= lv.take(i as int) + (seq![(kv, vv)] + lv.skip(i as int)));
            } else {
                assert(lv.skip(i as int) =~= Seq::<(Seq<char>, PrefValueV)>::empty());
                assert(adds_view(l@) =~= lv.take(i as int) + seq![(kv, vv)]);
            }
        }
    }
}

// ---------------------------------------------------------------------
// Restoring into a prefs file
// ---------------------------------------------------------------------

/// (kind, key, value) of each entry.
pub open spec fn entries_view(es: Seq<PrefEntry>) -> Seq<(PrefKind, Seq<char>, PrefValueV)> {
    es.map_values(|e: PrefEntry| (e.kind, e.key@, value_view(e.value)))
}

/// The line and value of the last pref of the file with key `k`.
pub open spec fn last_pref(parsed: Seq<(int, Seq<char>, PrefValueV)>, k: Seq<char>) -> Option<
    (int, PrefValueV),
>
    decreases parsed.len(),
{
    if parsed.len() == 0 {
        None
    } else if parsed.last().1 == k {
        Some((parsed.last().0, parsed.last().2))
    } else {
        last_pref(parsed.drop_last(), k)
    }
}

/// The last replacement recorded for line `i`.
pub open spec fn repl_at(repl: Seq<(int, Seq<char>, PrefValueV)>, i: int) -> Option<
    (Seq<char>, PrefValueV),
>
    decreases repl.len(),
{
    if repl.len() == 0 {
        None
    } else if repl.last().0 == i {
        Some((repl.last().1, repl.last().2))
    } else {
        repl_at(repl.drop_last(), i)
    }
}

/// Where a restore stands after some entries.
pub ghost struct RestoreAcc {
    /// Keys of the file already matched by an entry.
    pub removed: Seq<Seq<char>>,
    /// Lines to rewrite: (line, key, value).
    pub repl: Seq<(int, Seq<char>, PrefValueV)>,
    /// Prefs to append, sorted by key.
    pub adds: Seq<(Seq<char>, PrefValueV)>,
    pub applied: nat,
    pub added: nat,
    pub modified: nat,
    pub unchanged: nat,
    pub skipped: nat,
}

pub open spec fn restore_start() -> RestoreAcc {
    RestoreAcc {
        removed: Seq::empty(),
        repl: Seq::empty(),
        adds: Seq::empty(),
        applied: 0,
        added: 0,
        modified: 0,
        unchanged: 0,
        skipped: 0,
    }
}

/// One backup entry restored: a path entry is skipped unless paths are
/// restored; else its (mapped) value replaces the file's last pref of that
/// key, is counted unchanged when equal, or is appended when the file has
/// no such pref (or it was matched already).
pub open spec fn restore_step(
    acc: RestoreAcc,
    parsed: Seq<(int, Seq<char>, PrefValueV)>,
    e: (PrefKind, Seq<char>, PrefValueV),
    restore_paths: bool,
    mappings: Seq<(Seq<char>, Seq<char>)>,
) -> RestoreAcc {
    let (kind, key, value) = e;
    if kind == PrefKind::Path && !restore_paths {
        RestoreAcc { skipped: acc.skipped + 1, ..acc }
    } else {
        let v = mapped_value(kind, value, mappings);
        let cur = if acc.removed.contains(key) {
            None
        } else {
            last_pref(parsed, key)
        };
        match cur {
            Some((line, c)) => if c == v {
                RestoreAcc { removed: acc.removed.push(key), unchanged: acc.unchanged + 1, ..acc }
            } else {
                RestoreAcc {
                    removed: acc.removed.push(key),
                    repl: acc.repl.push((line, key, v)),
                    modified: acc.modified + 1,
                    applied: acc.applied + 1,
                    ..acc
                }
            },
            None => RestoreAcc {
                adds: sorted_insert(acc.adds, key, v),
                added: acc.added + 1,
                applied: acc.applied + 1,
                ..acc
            },
        }
    }
}

pub open spec fn restore_fold(
    entries: Seq<(PrefKind, Seq<char>, PrefValueV)>,
    parsed: Seq<(int, Seq<char>, PrefValueV)>,
    restore_paths: bool,
    mappings: Seq<(Seq<char>, Seq<char>)>,
) -> RestoreAcc
    decreases entries.len(),
{
    if entries.len() == 0 {
        restore_start()
    } else {
        restore_step(
            restore_fold(entries.drop_last(), parsed, restore_paths, mappings),
            parsed,
            entries.last(),
            restore_paths,
            mappings,
        )
    }
}

/// The file's lines with the recorded lines rewritten.
pub open spec fn replaced_lines(ls: Seq<Seq<char>>, repl: Seq<(int, Seq<char>, PrefValueV)>) -> Seq<
    Seq<char>,
> {
    Seq::new(
        ls.len(),
        |i: int|
            match repl_at(repl, i) {
                Some((k, v)) => pref_line_text(k, v),
                None => ls[i],
            },
    )
}

/// The lines with a block of appended prefs: a blank line when the last
/// line is not blank, a comment line, then one line per pref.
pub open spec fn appended(ls: Seq<Seq<char>>, header: Seq<char>, adds: Seq<(Seq<char>, PrefValueV)>) -> Seq<
    Seq<char>,
> {
    if adds.len() == 0 {
        ls
    } else {
        let base = if ls.len() > 0 && trim(ls.last(), Trim::Ws).len() > 0 {
            ls.push(Seq::empty())
        } else {
            ls
        };
        base.push(header) + adds.map_values(|a: (Seq<char>, PrefValueV)| pref_line_text(a.0, a.1))
    }
}

/// Lines joined with newlines, and a final newline.
pub open spec fn file_text(ls: Seq<Seq<char>>) -> Seq<char> {
    crate::text::join(ls, seq!['\n']) + seq!['\n']
}

pub open spec fn parsed_view(ps: Seq<ParsedPref>) -> Seq<(int, Seq<char>, PrefValueV)> {
    ps.map_values(|p: ParsedPref| (p.line_index as int, p.entry.key@, value_view(p.entry.value)))
}

proof fn lemma_parsed_view(ps: Seq<ParsedPref>, spec: Seq<(int, Seq<char>, PrefValueV)>)
    requires
        parsed_match(ps, spec),
    ensures
        parsed_view(ps) == spec,
{
    assert(parsed_view(ps) =~= spec);
}

fn last_pref_exec(parsed: &Vec<ParsedPref>, k: &Vec<char>) -> (res: Option<(usize, PrefValue)>)
    ensures
        match last_pref(parsed_view(parsed@), k@) {
            Some((line, v)) => res matches Some((l, val)) && l as int == line && value_view(val)
                == v,
            None => res is None,
        },
{
    let ghost pv = parsed_view(parsed@);
    let mut j = parsed.len();
    assert(pv.take(j as int) =~= pv);
    while j > 0
        invariant
            j <= parsed.len(),
            pv == parsed_view(parsed@),
            last_pref(pv, k@) == last_pref(pv.take(j as int), k@),
        decreases j,
    {
        let ghost t = pv.take(j as int);
        assert(t.drop_last() =~= pv.take(j - 1));
        assert(t.last() == pv[j - 1]);
        let key = chars_of(parsed[j - 1].entry.key.as_str());
        if chars_eq(&key, k) {
            return Some((parsed[j - 1].line_index, parsed[j - 1].entry.value.copy()));
        }
        j -= 1;
    }
    None
}

fn seq_contains_chars(v: &Vec<Vec<char>>, k: &Vec<char>) -> (res: bool)
    ensures
        res == v@.map_values(|x: Vec<char>| x@).contains(k@),
{
    let ghost vv = v@.map_values(|x: Vec<char>| x@);
    let mut i: usize = 0;
    while i < v.len()
        invariant
            i <= v.len(),
            vv == v@.map_values(|x: Vec<char>| x@),
            forall|j: int| 0 <= j < i ==> vv[j] != k@,
        decreases v.len() - i,
    {
        if chars_eq(&v[i], k) {
            assert(vv[i as int] == k@);
            return true;
        }
        i += 1;
    }
    false
}

spec fn repl_view(r: Seq<(usize, Vec<char>, PrefValue)>) -> Seq<(int, Seq<char>, PrefValueV)> {
    r.map_values(|e: (usize, Vec<char>, PrefValue)| (e.0 as int, e.1@, value_view(e.2)))
}

/// The exec state of a restore.
struct RestoreWork {
    removed: Vec<Vec<char>>,
    repl: Vec<(usize, Vec<char>, PrefValue)>,
    adds: Vec<(Vec<char>, PrefValue)>,
    applied: usize,
    added: usize,
    modified: usize,
    unchanged: usize,
    skipped: usize,
}

spec fn work_view(w: RestoreWork) -> RestoreAcc {
    RestoreAcc {
        removed: w.removed@.map_values(|x: Vec<char>| x@),
        repl: repl_view(w.repl@),
        adds: adds_view(w.adds@),
        applied: w.applied as nat,
        added: w.added as nat,
        modified: w.modified as nat,
        unchanged: w.unchanged as nat,
        skipped: w.skipped as nat,
    }
}

fn restore_plan(parsed: &Vec<ParsedPref>, prefs: &Vec<PrefEntry>, options: &RestoreOptions) -> (res:
    RestoreWork)
    ensures
        work_view(res) == restore_fold(
            entries_view(prefs@),
            parsed_view(parsed@),
            options.restore_paths,
            mappings_view(options.mappings@),
        ),
{
    let ghost ev = entries_view(prefs@);
    let ghost pv = parsed_view(parsed@);
    let ghost mv = mappings_view(options.mappings@);
    let mut w = RestoreWork {
        removed: Vec::new(),
        repl: Vec::new(),
        adds: Vec::new(),
        applied: 0,
        added: 0,
        modified: 0,
        unchanged: 0,
        skipped: 0,
    };
    let mut i: usize = 0;
    assert(ev.take(0) =~= Seq::<(PrefKind, Seq<char>, PrefValueV)>::empty());
    assert(work_view(w).removed =~= Seq::<Seq<char>>::empty());
    assert(work_view(w).repl =~= Seq::<(int, Seq<char>, PrefValueV)>::empty());
    assert(work_view(w).adds =~= Seq::<(Seq<char>, PrefValueV)>::empty());
    assert(work_view(w) == restore_start());
    while i < prefs.len()
        invariant
            i <= prefs.len(),
            ev == entries_view(prefs@),
            pv == parsed_view(parsed@),
            mv == mappings_view(options.mappings@),
            work_view(w) == restore_fold(ev.take(i as int), pv, options.restore_paths, mv),
            w.applied + w.unchanged + w.skipped == i,
            w.added + w.modified == w.applied,
        decreases prefs.len() - i,
    {
        let e = &prefs[i];
        let ghost before = work_view(w);
        proof {
            assert(ev.take(i + 1).drop_last() =~= ev.take(i as int));
            assert(ev.take(i + 1).last() == ev[i as int]);
        }
        if e.kind == PrefKind::Path && !options.restore_paths {
            w.skipped = w.skipped + 1;
        } else {
            let copy = PrefEntry {
                key: e.key.clone(),
                value: e.value.copy(),
                kind: e.kind,
                scope: e.scope,
                plugin: crate::text::copy_opt_string(&e.plugin),
            };
            let mapped = apply_mappings(copy, &options.mappings);
            let key = chars_of(mapped.key.as_str());
            let cur = if seq_contains_chars(&w.removed, &key) {
                None
            } else {
                last_pref_exec(parsed, &key)
            };
            match cur {
                Some((line, c)) => {
                    let ghost rb = w.removed@;
                    let kc = slice_chars(&key, 0, key.len());
                    assert(kc@ =~= key@);
                    w.removed.push(kc);
                    proof {
                        assert(w.removed@.map_values(|x: Vec<char>| x@) =~= rb.map_values(
                            |x: Vec<char>| x@,
                        ).push(key@));
                    }
                    if c.same_as(&mapped.value) {
                        w.unchanged = w.unchanged + 1;
                    } else {
                        let ghost rp = w.repl@;
                        w.repl.push((line, key, mapped.value));
                        proof {
                            assert(repl_view(w.repl@) =~= repl_view(rp).push(
                                (line as int, key@, value_view(mapped.value)),
                            ));
                        }
                        w.modified = w.modified + 1;
                        w.applied = w.applied + 1;
                    }
                },
                None => {
                    insert_addition(&mut w.adds, key, mapped.value);
                    w.added = w.added + 1;
                    w.applied = w.applied + 1;
                },
            }
        }
        proof {
            let st = restore_step(before, pv, ev[i as int], options.restore_paths, mv);
            assert(work_view(w).removed =~= st.removed);
            assert(work_view(w).repl =~= st.repl);
            assert(work_view(w).adds =~= st.adds);
            assert(work_view(w) == st);
        }
        i += 1;
    }
    assert(ev.take(prefs.len() as int) =~= ev);
    w
}

fn repl_at_exec(repl: &Vec<(usize, Vec<char>, PrefValue)>, i: usize) -> (res: Option<Vec<char>>)
    ensures
        match repl_at(repl_view(repl@), i as int) {
            Some((k, v)) => res matches Some(line) && line@ == pref_line_text(k, v),
            None => res is None,
        },
{
    let ghost rv = repl_view(repl@);
    let mut j = repl.len();
    assert(rv.take(j as int) =~= rv);
    while j > 0
        invariant
            j <= repl.len(),
            rv == repl_view(repl@),
            repl_at(rv, i as int) == repl_at(rv.take(j as int), i as int),
        decreases j,
    {
        let ghost t = rv.take(j as int);
        assert(t.drop_last() =~= rv.take(j - 1));
        assert(t.last() == rv[j - 1]);
        if repl[j - 1].0 == i {
            let k = string_of(repl[j - 1].1.as_slice());
            return Some(pref_line_chars(k.as_str(), &repl[j - 1].2));
        }
        j -= 1;
    }
    None
}

spec fn lines_view(ls: Seq<Vec<char>>) -> Seq<Seq<char>> {
    ls.map_values(|l: Vec<char>| l@)
}

fn replace_lines(ls: &Vec<Vec<char>>, repl: &Vec<(usize, Vec<char>, PrefValue)>) -> (res: Vec<
    Vec<char>,
>)
    ensures
        lines_view(res@) == replaced_lines(lines_view(ls@), repl_view(repl@)),
{
    let ghost target = replaced_lines(lines_view(ls@), repl_view(repl@));
    let mut out: Vec<Vec<char>> = Vec::new();
    let mut i: usize = 0;
    while i < ls.len()
        invariant
            i <= ls.len(),
            target == replaced_lines(lines_view(ls@), repl_view(repl@)),
            out@.len() == i,
            forall|j: int| 0 <= j < i ==> (#[trigger] out@[j])@ == target[j],
        decreases ls.len() - i,
    {
        let line = match repl_at_exec(repl, i) {
            Some(l) => l,
            None => slice_chars(&ls[i], 0, ls[i].len()),
        };
        assert(line@ =~= target[i as int]);
        out.push(line);
        i += 1;
    }
    assert(lines_view(out@) =~= target);
    out
}

fn append_block(ls: Vec<Vec<char>>, header: &str, adds: &Vec<(Vec<char>, PrefValue)>) -> (res: Vec<
    Vec<char>,
>)
    ensures
        lines_view(res@) == appended(lines_view(ls@), header@, adds_view(adds@)),
{
    if adds.len() == 0 {
        return ls;
    }
    let ghost lv = lines_view(ls@);
    let mut out = ls;
    if out.len() > 0 {
        let last = trim_chars(&out[out.len() - 1], Trim::Ws);
        if last.len() > 0 {
            out.push(Vec::new());
            assert(lines_view(out@) =~= lv.push(Seq::empty()));
        }
    }
    let ghost base = lines_view(out@);
    out.push(chars_of(header));
    assert(lines_view(out@) =~= base.push(header@));
    let ghost av = adds_view(adds@);
    let mut i: usize = 0;
    while i < adds.len()
        invariant
            i <= adds.len(),
            av == adds_view(adds@),
            lines_view(out@) == base.push(header@) + av.take(i as int).map_values(
                |a: (Seq<char>, PrefValueV)| pref_line_text(a.0, a.1),
            ),
        decreases adds.len() - i,
    {
        let k = string_of(adds[i].0.as_slice());
        let line = pref_line_chars(k.as_str(), &adds[i].1);
        let ghost before = lines_view(out@);
        out.push(line);
        proof {
            assert(av.take(i + 1) =~= av.take(i as int).push(av[i as int]));
            assert(lines_view(out@) =~= before.push(line@));
            assert(av.take(i + 1).map_values(|a: (Seq<char>, PrefValueV)| pref_line_text(a.0, a.1))
                =~= av.take(i as int).map_values(
                |a: (Seq<char>, PrefValueV)| pref_line_text(a.0, a.1),
            ).push(line@));
        }
        i += 1;
    }
    assert(av.take(adds.len() as int) =~= av);
    out
}

fn file_text_exec(ls: &Vec<Vec<char>>) -> (res: String)
    ensures
        res@ == file_text(lines_view(ls@)),
{
    let nl = crate::text::char_vec1('\n');
    let mut out = crate::text::join_chars(ls, &nl);
    out.push('\n');
    string_of(out.as_slice())
}

/// The text that restoring `prefs` writes into a `prefs.js` holding
/// `text`, and its report.
pub open spec fn restored_text(
    text: Seq<char>,
    entries: Seq<(PrefKind, Seq<char>, PrefValueV)>,
    restore_paths: bool,
    mappings: Seq<(Seq<char>, Seq<char>)>,
) -> Seq<char> {
    file_text(restored_lines(text, entries, restore_paths, mappings))
}

/// The lines that restoring `prefs` into a `prefs.js` holding `text` writes.
pub open spec fn restored_lines(
    text: Seq<char>,
    entries: Seq<(PrefKind, Seq<char>, PrefValueV)>,
    restore_paths: bool,
    mappings: Seq<(Seq<char>, Seq<char>)>,
) -> Seq<Seq<char>> {
    let ls = crate::text::lines(text);
    let acc = restore_fold(entries, parsed_prefs(ls), restore_paths, mappings);
    appended(replaced_lines(ls, acc.repl), "// Zotero Bridge restored preferences"@, acc.adds)
}

/// Line `i` holds a pref whose key one of the entries names.
pub open spec fn line_named(
    parsed: Seq<(int, Seq<char>, PrefValueV)>,
    i: int,
    entries: Seq<(PrefKind, Seq<char>, PrefValueV)>,
) -> bool {
    exists|j: int, e: int|
        0 <= j < parsed.len() && 0 <= e < entries.len() && #[trigger] parsed[j].0 == i
            && #[trigger] entries[e].1 == parsed[j].1
}

proof fn lemma_last_pref_found(parsed: Seq<(int, Seq<char>, PrefValueV)>, k: Seq<char>)
    ensures
        last_pref(parsed, k) matches Some((line, c)) ==> exists|j: int|
            0 <= j < parsed.len() && #[trigger] parsed[j].0 == line && parsed[j].1 == k,
    decreases parsed.len(),
{
    if parsed.len() > 0 {
        if parsed.last().1 == k {
            assert(parsed[parsed.len() - 1].0 == parsed.last().0);
        } else {
            lemma_last_pref_found(parsed.drop_last(), k);
            if let Some((line, c)) = last_pref(parsed, k) {
                let j = choose|j: int|
                    0 <= j < parsed.drop_last().len() && #[trigger] parsed.drop_last()[j].0 == line
                        && parsed.drop_last()[j].1 == k;
                assert(parsed[j].0 == line);
            }
        }
    }
}

proof fn lemma_repl_named(
    entries: Seq<(PrefKind, Seq<char>, PrefValueV)>,
    parsed: Seq<(int, Seq<char>, PrefValueV)>,
    restore_paths: bool,
    mappings: Seq<(Seq<char>, Seq<char>)>,
)
    ensures
        forall|r: int|
            0 <= r < restore_fold(entries, parsed, restore_paths, mappings).repl.len()
                ==> line_named(
                parsed,
                #[trigger] restore_fold(entries, parsed, restore_paths, mappings).repl[r].0,
                entries,
            ),
    decreases entries.len(),
{
    if entries.len() > 0 {
        let prev = entries.drop_last();
        lemma_repl_named(prev, parsed, restore_paths, mappings);
        let acc0 = restore_fold(prev, parsed, restore_paths, mappings);
        let acc = restore_fold(entries, parsed, restore_paths, mappings);
        let n = entries.len() - 1;
        assert forall|r: int| 0 <= r < acc.repl.len() implies line_named(
            parsed,
            #[trigger] acc.repl[r].0,
            entries,
        ) by {
            if r < acc0.repl.len() {
                assert(acc.repl[r] == acc0.repl[r]);
                assert(line_named(parsed, acc0.repl[r].0, prev));
                let (j, e) = choose|j: int, e: int|
                    0 <= j < parsed.len() && 0 <= e < prev.len() && #[trigger] parsed[j].0
                        == acc0.repl[r].0 && #[trigger] prev[e].1 == parsed[j].1;
                assert(entries[e] == prev[e]);
                assert(line_named(parsed, acc.repl[r].0, entries));
            } else {
                let key = entries.last().1;
                lemma_last_pref_found(parsed, key);
                let (line, c) = last_pref(parsed, key)->0;
                let j = choose|j: int|
                    0 <= j < parsed.len() && #[trigger] parsed[j].0 == line && parsed[j].1 == key;
                assert(entries[n].1 == parsed[j].1);
                assert(line_named(parsed, acc.repl[r].0, entries));
            }
        }
    }
}

proof fn lemma_repl_at_found(repl: Seq<(int, Seq<char>, PrefValueV)>, i: int)
    ensures
        repl_at(repl, i) is Some ==> exists|r: int| 0 <= r < repl.len() && #[trigger] repl[r].0 == i,
    decreases repl.len(),
{
    if repl.len() > 0 {
        if repl.last().0 == i {
            assert(repl[repl.len() - 1].0 == i);
        } else {
            lemma_repl_at_found(repl.drop_last(), i);
            if repl_at(repl, i) is Some {
                let r = choose|r: int|
                    0 <= r < repl.drop_last().len() && #[trigger] repl.drop_last()[r].0 == i;
                assert(repl[r].0 == i);
            }
        }
    }
}

/// Restoring merges by key: every line of the file that holds no pref
/// named by a backup entry (comments, other prefs, blank lines) is written
/// back unchanged and in its place.
pub proof fn law_restore_keeps_unnamed_lines(
    text: Seq<char>,
    entries: Seq<(PrefKind, Seq<char>, PrefValueV)>,
    restore_paths: bool,
    mappings: Seq<(Seq<char>, Seq<char>)>,
    i: int,
)
    requires
        0 <= i < crate::text::lines(text).len(),
        !line_named(parsed_prefs(crate::text::lines(text)), i, entries),
    ensures
        restored_lines(text, entries, restore_paths, mappings)[i] == crate::text::lines(text)[i],
{
    let ls = crate::text::lines(text);
    let parsed = parsed_prefs(ls);
    let acc = restore_fold(entries, parsed, restore_paths, mappings);
    lemma_repl_named(entries, parsed, restore_paths, mappings);
    lemma_repl_at_found(acc.repl, i);
    if repl_at(acc.repl, i) is Some {
        let r = choose|r: int| 0 <= r < acc.repl.len() && #[trigger] acc.repl[r].0 == i;
        assert(line_named(parsed, acc.repl[r].0, entries));
    }
    let rl = replaced_lines(ls, acc.repl);
    assert(rl[i] == ls[i]);
    let header = "// Zotero Bridge restored preferences"@;
    if acc.adds.len() > 0 {
        let base = if rl.len() > 0 && trim(rl.last(), Trim::Ws).len() > 0 {
            rl.push(Seq::empty())
        } else {
            rl
        };
        assert(base[i] == rl[i]);
        assert(appended(rl, header, acc.adds)[i] == base.push(header)[i]);
    }
}

/// Merges backup entries into the text of a `prefs.js`: changed prefs are
/// rewritten in place, missing ones appended (sorted by key) under a
/// comment line, path prefs skipped unless `restore_paths`. Returns the new
/// text and the report (with `backup_file` as given).
pub fn restore_into_text(
    text: &str,
    prefs: &Vec<PrefEntry>,
    options: &RestoreOptions,
    backup_file: String,
) -> (res: (String, RestoreReport))
    ensures
        res.0@ == restored_text(
            text@,
            entries_view(prefs@),
            options.restore_paths,
            mappings_view(options.mappings@),
        ),
        ({
            let acc = restore_fold(
                entries_view(prefs@),
                parsed_prefs(crate::text::lines(text@)),
                options.restore_paths,
                mappings_view(options.mappings@),
            );
            &&& res.1.applied == acc.applied
            &&& res.1.added == acc.added
            &&& res.1.modified == acc.modified
            &&& res.1.unchanged == acc.unchanged
            &&& res.1.deleted == 0
            &&& res.1.skipped_paths == acc.skipped
            &&& res.1.backup_file == backup_file
        }),
{
    let parsed = parse_prefs(text);
    proof {
        lemma_parsed_view(parsed@, parsed_prefs(crate::text::lines(text@)));
    }
    let w = restore_plan(&parsed, prefs, options);
    let t = chars_of(text);
    let ls = crate::text::lines_of(&t);
    assert(lines_view(ls@) == crate::text::lines(text@));
    let replaced = replace_lines(&ls, &w.repl);
    let all = append_block(replaced, "// Zotero Bridge restored preferences", &w.adds);
    let out = file_text_exec(&all);
    let report = RestoreReport {
        applied: w.applied,
        added: w.added,
        modified: w.modified,
        unchanged: w.unchanged,
        deleted: 0,
        skipped_paths: w.skipped,
        backup_file,
    };
    (out, report)
}

// ---------------------------------------------------------------------
// Saving the edited entries
// ---------------------------------------------------------------------

/// The entries by key (the last entry of a key wins), sorted by key.
pub open spec fn desired_of(entries: Seq<(PrefKind, Seq<char>, PrefValueV)>) -> Seq<
    (Seq<char>, PrefValueV),
>
    decreases entries.len(),
{
    if entries.len() == 0 {
        Seq::empty()
    } else {
        sorted_insert(desired_of(entries.drop_last()), entries.last().1, entries.last().2)
    }
}

/// The value of `k` in a key list.
pub open spec fn lookup_key(l: Seq<(Seq<char>, PrefValueV)>, k: Seq<char>) -> Option<PrefValueV>
    decreases l.len(),
{
    if l.len() == 0 {
        None
    } else if l[0].0 == k {
        Some(l[0].1)
    } else {
        lookup_key(l.drop_first(), k)
    }
}

/// Where a save stands after some of the file's prefs.
pub ghost struct SaveAcc {
    pub seen: Seq<Seq<char>>,
    pub repl: Seq<(int, Seq<char>, PrefValueV)>,
    pub removed: Seq<int>,
    pub applied: nat,
    pub modified: nat,
    pub unchanged: nat,
    pub deleted: nat,
}

/// One pref of the file: kept (rewritten when its value changed) when the
/// edited entries have its key, else removed.
pub open spec fn save_step(
    acc: SaveAcc,
    desired: Seq<(Seq<char>, PrefValueV)>,
    cur: (int, Seq<char>, PrefValueV),
) -> SaveAcc {
    match lookup_key(desired, cur.1) {
        Some(v) => if cur.2 == v {
            SaveAcc { seen: acc.seen.push(cur.1), unchanged: acc.unchanged + 1, ..acc }
        } else {
            SaveAcc {
                seen: acc.seen.push(cur.1),
                repl: acc.repl.push((cur.0, cur.1, v)),
                modified: acc.modified + 1,
                applied: acc.applied + 1,
                ..acc
            }
        },
        None => SaveAcc {
            removed: acc.removed.push(cur.0),
            deleted: acc.deleted + 1,
            applied: acc.applied + 1,
            ..acc
        },
    }
}

pub open spec fn save_fold(parsed: Seq<(int, Seq<char>, PrefValueV)>, desired: Seq<(Seq<char>, PrefValueV)>) -> SaveAcc
    decreases parsed.len(),
{
    if parsed.len() == 0 {
        SaveAcc {
            seen: Seq::empty(),
            repl: Seq::empty(),
            removed: Seq::empty(),
            applied: 0,
            modified: 0,
            unchanged: 0,
            deleted: 0,
        }
    } else {
        save_step(save_fold(parsed.drop_last(), desired), desired, parsed.last())
    }
}

/// The edited entries whose key the file did not hold.
pub open spec fn unseen(desired: Seq<(Seq<char>, PrefValueV)>, seen: Seq<Seq<char>>) -> Seq<
    (Seq<char>, PrefValueV),
>
    decreases desired.len(),
{
    if desired.len() == 0 {
        Seq::empty()
    } else {
        let rest = unseen(desired.drop_last(), seen);
        if seen.contains(desired.last().0) {
            rest
        } else {
            rest.push(desired.last())
        }
    }
}

/// The lines whose index is not among `removed`.
pub open spec fn kept_lines(ls: Seq<Seq<char>>, removed: Seq<int>) -> Seq<Seq<char>>
    decreases ls.len(),
{
    if ls.len() == 0 {
        Seq::empty()
    } else {
        let rest = kept_lines(ls.drop_last(), removed);
        if removed.contains(ls.len() - 1) {
            rest
        } else {
            rest.push(ls.last())
        }
    }
}

/// The text that saving the edited entries writes into a `prefs.js`
/// holding `text`.
pub open spec fn saved_text(text: Seq<char>, entries: Seq<(PrefKind, Seq<char>, PrefValueV)>) -> Seq<
    char,
> {
    file_text(saved_lines(text, entries))
}

/// The lines that saving the edited entries writes into a `prefs.js`
/// holding `text`.
pub open spec fn saved_lines(text: Seq<char>, entries: Seq<(PrefKind, Seq<char>, PrefValueV)>) -> Seq<
    Seq<char>,
> {
    let ls = crate::text::lines(text);
    let desired = desired_of(entries);
    let acc = save_fold(parsed_prefs(ls), desired);
    appended(
        kept_lines(replaced_lines(ls, acc.repl), acc.removed),
        "// Zotero Bridge saved preferences"@,
        unseen(desired, acc.seen),
    )
}

fn lookup_key_exec(l: &Vec<(Vec<char>, PrefValue)>, k: &Vec<char>) -> (res: Option<PrefValue>)
    ensures
        match lookup_key(adds_view(l@), k@) {
            Some(v) => res matches Some(val) && value_view(val) == v,
            None => res is None,
        },
{
    let ghost lv = adds_view(l@);
    let mut i: usize = 0;
    assert(lv.skip(0) =~= lv);
    while i < l.len()
        invariant
            i <= l.len(),
            lv == adds_view(l@),
            lookup_key(lv, k@) == lookup_key(lv.skip(i as int), k@),
        decreases l.len() - i,
    {
        assert(lv.skip(i as int)[0] == lv[i as int]);
        assert(lv.skip(i as int).drop_first() =~= lv.skip(i + 1));
        if chars_eq(&l[i].0, k) {
            return Some(l[i].1.copy());
        }
        i += 1;
    }
    None
}

fn desired_list(prefs: &Vec<PrefEntry>) -> (res: Vec<(Vec<char>, PrefValue)>)
    ensures
        adds_view(res@) == desired_of(entries_view(prefs@)),
{
    let ghost ev = entries_view(prefs@);
    let mut out: Vec<(Vec<char>, PrefValue)> = Vec::new();
    let mut i: usize = 0;
    assert(ev.take(0) =~= Seq::<(PrefKind, Seq<char>, PrefValueV)>::empty());
    assert(adds_view(out@) =~= Seq::<(Seq<char>, PrefValueV)>::empty());
    while i < prefs.len()
        invariant
            i <= prefs.len(),
            ev == entries_view(prefs@),
            adds_view(out@) == desired_of(ev.take(i as int)),
        decreases prefs.len() - i,
    {
        proof {
            assert(ev.take(i + 1).drop_last() =~= ev.take(i as int));
            assert(ev.take(i + 1).last() == ev[i as int]);
        }
        insert_addition(&mut out, chars_of(prefs[i].key.as_str()), prefs[i].value.copy());
        i += 1;
    }
    assert(ev.take(prefs.len() as int) =~= ev);
    out
}

fn kept_lines_exec(ls: &Vec<Vec<char>>, removed: &Vec<usize>) -> (res: Vec<Vec<char>>)
    ensures
        lines_view(res@) == kept_lines(lines_view(ls@), removed@.map_values(|x: usize| x as int)),
{
    let ghost lv = lines_view(ls@);
    let ghost rv = removed@.map_values(|x: usize| x as int);
    let mut out: Vec<Vec<char>> = Vec::new();
    let mut i: usize = 0;
    assert(lv.take(0) =~= Seq::<Seq<char>>::empty());
    assert(lines_view(out@) =~= Seq::<Seq<char>>::empty());
    while i < ls.len()
        invariant
            i <= ls.len(),
            lv == lines_view(ls@),
            rv == removed@.map_values(|x: usize| x as int),
            lines_view(out@) == kept_lines(lv.take(i as int), rv),
        decreases ls.len() - i,
    {
        proof {
            assert(lv.take(i + 1).drop_last() =~= lv.take(i as int));
            assert(lv.take(i + 1).last() == lv[i as int]);
        }
        let mut gone = false;
        let mut j: usize = 0;
        while j < removed.len()
            invariant
                j <= removed.len(),
                rv == removed@.map_values(|x: usize| x as int),
                gone == (exists|m: int| 0 <= m < j && rv[m] == i as int),
            decreases removed.len() - j,
        {
            if removed[j] == i {
                assert(rv[j as int] == i as int);
                gone = true;
            } else {
                assert(rv[j as int] != i as int);
            }
            j += 1;
        }
        assert(gone == rv.contains(i as int));
        if !gone {
            let ghost before = lines_view(out@);
            let line = slice_chars(&ls[i], 0, ls[i].len());
            assert(line@ =~= lv[i as int]);
            out.push(line);
            assert(lines_view(out@) =~= before.push(lv[i as int]));
        }
        i += 1;
    }
    assert(lv.take(ls.len() as int) =~= lv);
    out
}

fn unseen_exec(desired: &Vec<(Vec<char>, PrefValue)>, seen: &Vec<Vec<char>>) -> (res: Vec<
    (Vec<char>, PrefValue),
>)
    ensures
        adds_view(res@) == unseen(adds_view(desired@), seen@.map_values(|x: Vec<char>| x@)),
{
    let ghost dv = adds_view(desired@);
    let ghost sv = seen@.map_values(|x: Vec<char>| x@);
    let mut out: Vec<(Vec<char>, PrefValue)> = Vec::new();
    let mut i: usize = 0;
    assert(dv.take(0) =~= Seq::<(Seq<char>, PrefValueV)>::empty());
    assert(adds_view(out@) =~= Seq::<(Seq<char>, PrefValueV)>::empty());
    while i < desired.len()
        invariant
            i <= desired.len(),
            dv == adds_view(desired@),
            sv == seen@.map_values(|x: Vec<char>| x@),
            adds_view(out@) == unseen(dv.take(i as int), sv),
        decreases desired.len() - i,
    {
        proof {
            assert(dv.take(i + 1).drop_last() =~= dv.take(i as int));
            assert(dv.take(i + 1).last() == dv[i as int]);
        }
        if !seq_contains_chars(seen, &desired[i].0) {
            let ghost before = adds_view(out@);
            let k = slice_chars(&desired[i].0, 0, desired[i].0.len());
            assert(k@ =~= desired[i as int].0@);
            out.push((k, desired[i].1.copy()));
            assert(adds_view(out@) =~= before.push(dv[i as int]));
        }
        i += 1;
    }
    assert(dv.take(desired.len() as int) =~= dv);
    out
}

proof fn lemma_sorted_insert_len<V>(l: Seq<(Seq<char>, V)>, k: Seq<char>, v: V)
    ensures
        sorted_insert(l, k, v).len() <= l.len() + 1,
    decreases l.len(),
{
    if l.len() > 0 && l[0].0 != k && !key_lt(k, l[0].0) {
        lemma_sorted_insert_len(l.drop_first(), k, v);
    }
}

proof fn lemma_desired_len(e: Seq<(PrefKind, Seq<char>, PrefValueV)>)
    ensures
        desired_of(e).len() <= e.len(),
    decreases e.len(),
{
    if e.len() > 0 {
        lemma_desired_len(e.drop_last());
        lemma_sorted_insert_len(desired_of(e.drop_last()), e.last().1, e.last().2);
    }
}

proof fn lemma_unseen_len(d: Seq<(Seq<char>, PrefValueV)>, seen: Seq<Seq<char>>)
    ensures
        unseen(d, seen).len() <= d.len(),
    decreases d.len(),
{
    if d.len() > 0 {
        lemma_unseen_len(d.drop_last(), seen);
    }
}

proof fn lemma_parsed_len(ls: Seq<Seq<char>>)
    ensures
        parsed_prefs(ls).len() <= ls.len(),
    decreases ls.len(),
{
    if ls.len() > 0 {
        lemma_parsed_len(ls.drop_last());
    }
}

/// Writes the edited entries over the text of a `prefs.js`: prefs whose key
/// the entries lack are removed, changed ones rewritten in place, new ones
/// appended (sorted by key) under a comment line. Returns the new text and
/// the report (with `backup_file` as given).
pub fn save_into_text(text: &str, prefs: &Vec<PrefEntry>, backup_file: String) -> (res: (
    String,
    RestoreReport,
))
    requires
        crate::text::lines(text@).len() + prefs@.len() <= usize::MAX,
    ensures
        res.0@ == saved_text(text@, entries_view(prefs@)),
        ({
            let desired = desired_of(entries_view(prefs@));
            let acc = save_fold(parsed_prefs(crate::text::lines(text@)), desired);
            let added = unseen(desired, acc.seen).len();
            &&& res.1.applied == acc.applied + added
            &&& res.1.added == added
            &&& res.1.modified == acc.modified
            &&& res.1.unchanged == acc.unchanged
            &&& res.1.deleted == acc.deleted
            &&& res.1.skipped_paths == 0
            &&& res.1.backup_file == backup_file
        }),
{
    let parsed = parse_prefs(text);
    let ghost pv = parsed_prefs(crate::text::lines(text@));
    proof {
        lemma_parsed_view(parsed@, pv);
    }
    let desired = desired_list(prefs);
    let ghost dv = adds_view(desired@);
    let mut seen: Vec<Vec<char>> = Vec::new();
    let mut repl: Vec<(usize, Vec<char>, PrefValue)> = Vec::new();
    let mut removed: Vec<usize> = Vec::new();
    let mut applied: usize = 0;
    let mut modified: usize = 0;
    let mut unchanged: usize = 0;
    let mut deleted: usize = 0;
    let mut i: usize = 0;
    assert(pv.take(0) =~= Seq::<(int, Seq<char>, PrefValueV)>::empty());
    while i < parsed.len()
        invariant
            i <= parsed.len(),
            pv == parsed_view(parsed@),
            dv == adds_view(desired@),
            ({
                let acc = save_fold(pv.take(i as int), dv);
                &&& seen@.map_values(|x: Vec<char>| x@) == acc.seen
                &&& repl_view(repl@) == acc.repl
                &&& removed@.map_values(|x: usize| x as int) == acc.removed
                &&& applied == acc.applied
                &&& modified == acc.modified
                &&& unchanged == acc.unchanged
                &&& deleted == acc.deleted
            }),
            applied + unchanged == i,
            modified + deleted == applied,
        decreases parsed.len() - i,
    {
        let cur = &parsed[i];
        proof {
            assert(pv.take(i + 1).drop_last() =~= pv.take(i as int));
            assert(pv.take(i + 1).last() == pv[i as int]);
        }
        let key = chars_of(cur.entry.key.as_str());
        match lookup_key_exec(&desired, &key) {
            Some(v) => {
                let ghost sb = seen@;
                let kc = slice_chars(&key, 0, key.len());
                assert(kc@ =~= key@);
                seen.push(kc);
                assert(seen@.map_values(|x: Vec<char>| x@) =~= sb.map_values(|x: Vec<char>| x@).push(
                    key@,
                ));
                if cur.entry.value.same_as(&v) {
                    unchanged = unchanged + 1;
                } else {
                    let ghost rb = repl@;
                    repl.push((cur.line_index, key, v));
                    assert(repl_view(repl@) =~= repl_view(rb).push(
                        (cur.line_index as int, cur.entry.key@, value_view(v)),
                    ));
                    modified = modified + 1;
                    applied = applied + 1;
                }
            },
            None => {
                let ghost rb = removed@;
                removed.push(cur.line_index);
                assert(removed@.map_values(|x: usize| x as int) =~= rb.map_values(|x: usize| x as int).push(
                    cur.line_index as int,
                ));
                deleted = deleted + 1;
                applied = applied + 1;
            },
        }
        i += 1;
    }
    assert(pv.take(parsed.len() as int) =~= pv);
    let additions = unseen_exec(&desired, &seen);
    let t = chars_of(text);
    let ls = crate::text::lines_of(&t);
    assert(lines_view(ls@) == crate::text::lines(text@));
    let replaced = replace_lines(&ls, &repl);
    let kept = kept_lines_exec(&replaced, &removed);
    let all = append_block(kept, "// Zotero Bridge saved preferences", &additions);
    let out = file_text_exec(&all);
    let added = additions.len();
    proof {
        assert(adds_view(additions@).len() == additions@.len());
        lemma_desired_len(entries_view(prefs@));
        lemma_unseen_len(dv, seen@.map_values(|x: Vec<char>| x@));
        lemma_parsed_len(crate::text::lines(text@));
    }
    let report = RestoreReport {
        applied: applied + added,
        added,
        modified,
        unchanged,
        deleted,
        skipped_paths: 0,
        backup_file,
    };
    (out, report)
}

// ---------------------------------------------------------------------
// Previewing a restore
// ---------------------------------------------------------------------

/// A field-by-field copy of an entry.
pub fn entry_copy(e: &PrefEntry) -> (res: PrefEntry)
    ensures
        res.key@ == e.key@,
        value_view(res.value) == value_view(e.value),
        res.kind == e.kind,
        res.scope == e.scope,
        opt_str(res.plugin) == opt_str(e.plugin),
{
    PrefEntry {
        key: e.key.clone(),
        value: e.value.copy(),
        kind: e.kind,
        scope: e.scope,
        plugin: crate::text::copy_opt_string(&e.plugin),
    }
}

/// What a restore preview counts.
pub ghost struct PreviewAcc {
    pub will_add: nat,
    pub will_modify: nat,
    pub unchanged: nat,
    pub skipped: nat,
}

/// One backup entry previewed against the current prefs (the last pref of
/// each key).
pub open spec fn preview_step(
    acc: PreviewAcc,
    parsed: Seq<(int, Seq<char>, PrefValueV)>,
    e: (PrefKind, Seq<char>, PrefValueV),
    restore_paths: bool,
    mappings: Seq<(Seq<char>, Seq<char>)>,
) -> PreviewAcc {
    let (kind, key, value) = e;
    if kind == PrefKind::Path && !restore_paths {
        PreviewAcc { skipped: acc.skipped + 1, ..acc }
    } else {
        match last_pref(parsed, key) {
            None => PreviewAcc { will_add: acc.will_add + 1, ..acc },
            Some((_, c)) => if c == mapped_value(kind, value, mappings) {
                PreviewAcc { unchanged: acc.unchanged + 1, ..acc }
            } else {
                PreviewAcc { will_modify: acc.will_modify + 1, ..acc }
            },
        }
    }
}

pub open spec fn preview_fold(
    entries: Seq<(PrefKind, Seq<char>, PrefValueV)>,
    parsed: Seq<(int, Seq<char>, PrefValueV)>,
    restore_paths: bool,
    mappings: Seq<(Seq<char>, Seq<char>)>,
) -> PreviewAcc
    decreases entries.len(),
{
    if entries.len() == 0 {
        PreviewAcc { will_add: 0, will_modify: 0, unchanged: 0, skipped: 0 }
    } else {
        preview_step(
            preview_fold(entries.drop_last(), parsed, restore_paths, mappings),
            parsed,
            entries.last(),
            restore_paths,
            mappings,
        )
    }
}

/// The positions of the path entries, in order.
pub open spec fn path_positions(entries: Seq<(PrefKind, Seq<char>, PrefValueV)>) -> Seq<int>
    decreases entries.len(),
{
    if entries.len() == 0 {
        Seq::empty()
    } else {
        let rest = path_positions(entries.drop_last());
        if entries.last().0 == PrefKind::Path {
            rest.push(entries.len() - 1)
        } else {
            rest
        }
    }
}

/// What restoring `prefs` into a `prefs.js` holding `current_text` would
/// do, entry by entry; path entries are listed whether or not they are
/// restored.
pub fn preview_entries(
    label: &str,
    current_text: &str,
    prefs: &Vec<PrefEntry>,
    options: &RestoreOptions,
) -> (res: RestorePreview)
    ensures
        ({
            let ev = entries_view(prefs@);
            let acc = preview_fold(
                ev,
                parsed_prefs(crate::text::lines(current_text@)),
                options.restore_paths,
                mappings_view(options.mappings@),
            );
            let pos = path_positions(ev);
            &&& res.backup_path@ == label@
            &&& res.backup_items == prefs@.len()
            &&& res.will_add == acc.will_add
            &&& res.will_modify == acc.will_modify
            &&& res.unchanged == acc.unchanged
            &&& res.skipped_paths == acc.skipped
            &&& res.path_items@.len() == pos.len()
            &&& forall|j: int|
                0 <= j < pos.len() ==> (#[trigger] res.path_items@[j]).key@ == prefs@[pos[j]].key@
                    && value_view(res.path_items@[j].value) == value_view(prefs@[pos[j]].value)
                    && res.path_items@[j].kind == prefs@[pos[j]].kind
        }),
{
    let parsed = parse_prefs(current_text);
    let ghost pv = parsed_prefs(crate::text::lines(current_text@));
    proof {
        lemma_parsed_view(parsed@, pv);
    }
    let ghost ev = entries_view(prefs@);
    let ghost mv = mappings_view(options.mappings@);
    let mut will_add: usize = 0;
    let mut will_modify: usize = 0;
    let mut unchanged: usize = 0;
    let mut skipped: usize = 0;
    let mut path_items: Vec<PrefEntry> = Vec::new();
    let mut i: usize = 0;
    assert(ev.take(0) =~= Seq::<(PrefKind, Seq<char>, PrefValueV)>::empty());
    while i < prefs.len()
        invariant
            i <= prefs.len(),
            pv == parsed_view(parsed@),
            ev == entries_view(prefs@),
            mv == mappings_view(options.mappings@),
            ({
                let acc = preview_fold(ev.take(i as int), pv, options.restore_paths, mv);
                &&& will_add == acc.will_add
                &&& will_modify == acc.will_modify
                &&& unchanged == acc.unchanged
                &&& skipped == acc.skipped
            }),
            will_add + will_modify + unchanged + skipped == i,
            path_items@.len() == path_positions(ev.take(i as int)).len(),
            forall|j: int|
                0 <= j < path_items@.len() ==> {
                    let p = path_positions(ev.take(i as int))[j];
                    &&& 0 <= p < i
                    &&& (#[trigger] path_items@[j]).key@ == prefs@[p].key@
                    &&& value_view(path_items@[j].value) == value_view(prefs@[p].value)
                    &&& path_items@[j].kind == prefs@[p].kind
                },
        decreases prefs.len() - i,
    {
        let e = &prefs[i];
        let ghost prev_pos = path_positions(ev.take(i as int));
        proof {
            assert(ev.take(i + 1).drop_last() =~= ev.take(i as int));
            assert(ev.take(i + 1).last() == ev[i as int]);
        }
        if e.kind == PrefKind::Path {
            let ghost before = path_items@;
            path_items.push(entry_copy(e));
            proof {
                let np = path_positions(ev.take(i + 1));
                assert(np =~= prev_pos.push(i as int));
                assert forall|j: int| 0 <= j < path_items@.len() implies {
                    let p = np[j];
                    &&& 0 <= p < i + 1
                    &&& (#[trigger] path_items@[j]).key@ == prefs@[p].key@
                    &&& value_view(path_items@[j].value) == value_view(prefs@[p].value)
                    &&& path_items@[j].kind == prefs@[p].kind
                } by {
                    if j < before.len() {
                        assert(path_items@[j] == before[j]);
                        assert(np[j] == prev_pos[j]);
                    }
                }
            }
        }
        if e.kind == PrefKind::Path && !options.restore_paths {
            skipped = skipped + 1;
        } else {
            let mapped = apply_mappings(entry_copy(e), &options.mappings);
            let key = chars_of(mapped.key.as_str());
            match last_pref_exec(&parsed, &key) {
                None => {
                    will_add = will_add + 1;
                },
                Some((_, c)) => {
                    if c.same_as(&mapped.value) {
                        unchanged = unchanged + 1;
                    } else {
                        will_modify = will_modify + 1;
                    }
                },
            }
        }
        i += 1;
    }
    assert(ev.take(prefs.len() as int) =~= ev);
    RestorePreview {
        backup_path: string_of(chars_of(label).as_slice()),
        backup_items: prefs.len(),
        will_add,
        will_modify,
        unchanged,
        skipped_paths: skipped,
        path_items,
    }
}

// ---------------------------------------------------------------------
// Backups
// ---------------------------------------------------------------------

/// The entries of a prefs file text, in order.
pub open spec fn text_entries(text: Seq<char>) -> Seq<(Seq<char>, PrefValueV)> {
    parsed_prefs(crate::text::lines(text)).map_values(
        |p: (int, Seq<char>, PrefValueV)| (p.1, p.2),
    )
}

/// A backup of every pref of a `prefs.js` text, each classified.
pub fn backup_from_text(profile: String, created_at: String, text: &str) -> (res: PrefsBackup)
    ensures
        res.format_version == 1,
        res.app@ == "Zotero Bridge"@,
        res.created_at == created_at,
        res.profile == profile,
        res.skipped@.len() == 0,
        res.prefs@.map_values(|e: PrefEntry| (e.key@, value_view(e.value))) == text_entries(text@),
        forall|j: int| 0 <= j < res.prefs@.len() ==> classified(#[trigger] res.prefs@[j]),
{
    let parsed = parse_prefs(text);
    let ghost pv = parsed_prefs(crate::text::lines(text@));
    let mut prefs: Vec<PrefEntry> = Vec::new();
    let mut i: usize = 0;
    while i < parsed.len()
        invariant
            i <= parsed.len(),
            parsed_match(parsed@, pv),
            prefs@.len() == i,
            forall|j: int|
                0 <= j < i ==> (#[trigger] prefs@[j]).key@ == pv[j].1 && value_view(prefs@[j].value)
                    == pv[j].2 && classified(prefs@[j]),
        decreases parsed.len() - i,
    {
        let e = entry_copy(&parsed[i].entry);
        assert(classified(parsed@[i as int].entry));
        prefs.push(e);
        i += 1;
    }
    assert(prefs@.map_values(|e: PrefEntry| (e.key@, value_view(e.value))) =~= text_entries(text@));
    PrefsBackup {
        format_version: 1,
        app: "Zotero Bridge".to_string(),
        created_at,
        profile,
        prefs,
        skipped: Vec::new(),
    }
}

/// A backup read from disk gets its entries classified anew, so a stale
/// kind from an older version does not survive.
pub fn reclassify(backup: &mut PrefsBackup)
    ensures
        final(backup).prefs@.len() == old(backup).prefs@.len(),
        forall|j: int|
            0 <= j < final(backup).prefs@.len() ==> (#[trigger] final(backup).prefs@[j]).key
                == old(backup).prefs@[j].key && value_view(final(backup).prefs@[j].value)
                == value_view(old(backup).prefs@[j].value) && classified(final(backup).prefs@[j]),
        final(backup).profile == old(backup).profile,
        final(backup).created_at == old(backup).created_at,
{
    let ghost orig = backup.prefs@;
    let mut i: usize = 0;
    while i < backup.prefs.len()
        invariant
            i <= backup.prefs.len(),
            backup.prefs@.len() == orig.len(),
            backup.profile == old(backup).profile,
            backup.created_at == old(backup).created_at,
            orig == old(backup).prefs@,
            forall|j: int| i <= j < orig.len() ==> #[trigger] backup.prefs@[j] == orig[j],
            forall|j: int|
                0 <= j < i ==> (#[trigger] backup.prefs@[j]).key == orig[j].key && value_view(
                    backup.prefs@[j].value,
                ) == value_view(orig[j].value) && classified(backup.prefs@[j]),
        decreases backup.prefs.len() - i,
    {
        let mut e = entry_copy(&backup.prefs[i]);
        e.key = backup.prefs[i].key.clone();
        classify(&mut e);
        backup.prefs.set(i, e);
        i += 1;
    }
}

// ---------------------------------------------------------------------
// Scanning
// ---------------------------------------------------------------------

pub open spec fn or_text(o: Option<Seq<char>>, d: Seq<char>) -> Seq<char> {
    match o {
        Some(v) => v,
        None => d,
    }
}

/// The group a pref is counted in.
pub open spec fn group_key(scope: PrefScope, plugin: Option<Seq<char>>) -> Seq<char> {
    match scope {
        PrefScope::Plugin => "plugin:"@ + or_text(plugin, "unknown"@),
        PrefScope::Zotero => "zotero"@,
        PrefScope::Browser => "browser"@,
        PrefScope::Unknown => "unknown"@,
    }
}

pub ghost struct GroupV {
    pub id: Seq<char>,
    pub label: Seq<char>,
    pub scope: PrefScope,
    pub plugin: Option<Seq<char>>,
    pub total: nat,
    pub exportable: nat,
    pub paths: nat,
    pub sensitive: nat,
}

pub open spec fn group_view(g: PrefGroup) -> GroupV {
    GroupV {
        id: g.id@,
        label: g.label@,
        scope: g.scope,
        plugin: opt_str(g.plugin),
        total: g.total as nat,
        exportable: g.exportable as nat,
        paths: g.paths as nat,
        sensitive: g.sensitive as nat,
    }
}

/// A new group for a pref's owner, its counts zero.
pub open spec fn new_group(scope: PrefScope, plugin: Option<Seq<char>>) -> GroupV {
    let (id, label) = match scope {
        PrefScope::Plugin => (
            "plugin:"@ + or_text(plugin, "未知插件"@),
            "插件："@ + or_text(plugin, "未知插件"@),
        ),
        PrefScope::Zotero => ("zotero"@, "Zotero 本身"@),
        PrefScope::Browser => ("browser"@, "Zotero 框架"@),
        PrefScope::Unknown => ("unknown"@, "未知来源"@),
    };
    GroupV {
        id,
        label,
        scope,
        plugin,
        total: 0,
        exportable: 0,
        paths: 0,
        sensitive: 0,
    }
}

/// A group with one more pref of `kind` counted.
pub open spec fn count_in(g: GroupV, kind: PrefKind) -> GroupV {
    GroupV {
        total: g.total + 1,
        exportable: g.exportable + 1,
        paths: if kind == PrefKind::Path {
            g.paths + 1
        } else {
            g.paths
        },
        sensitive: if kind == PrefKind::Sensitive {
            g.sensitive + 1
        } else {
            g.sensitive
        },
        ..g
    }
}

/// The groups (sorted by key) with one more pref counted in the group of
/// its key, made when missing.
pub open spec fn group_upsert(
    l: Seq<(Seq<char>, GroupV)>,
    k: Seq<char>,
    scope: PrefScope,
    plugin: Option<Seq<char>>,
    kind: PrefKind,
) -> Seq<(Seq<char>, GroupV)>
    decreases l.len(),
{
    if l.len() == 0 {
        seq![(k, count_in(new_group(scope, plugin), kind))]
    } else if l[0].0 == k {
        seq![(k, count_in(l[0].1, kind))] + l.drop_first()
    } else if key_lt(k, l[0].0) {
        seq![(k, count_in(new_group(scope, plugin), kind))] + l
    } else {
        seq![l[0]] + group_upsert(l.drop_first(), k, scope, plugin, kind)
    }
}

pub open spec fn entry_info(e: PrefEntry) -> (PrefKind, PrefScope, Option<Seq<char>>) {
    (e.kind, e.scope, opt_str(e.plugin))
}

/// The groups of the entries, by group key.
pub open spec fn groups_of(es: Seq<(PrefKind, PrefScope, Option<Seq<char>>)>) -> Seq<
    (Seq<char>, GroupV),
>
    decreases es.len(),
{
    if es.len() == 0 {
        Seq::empty()
    } else {
        let (kind, scope, plugin) = es.last();
        group_upsert(groups_of(es.drop_last()), group_key(scope, plugin), scope, plugin, kind)
    }
}

proof fn lemma_group_upsert_at(
    l: Seq<(Seq<char>, GroupV)>,
    k: Seq<char>,
    scope: PrefScope,
    plugin: Option<Seq<char>>,
    kind: PrefKind,
    i: int,
)
    requires
        0 <= i <= l.len(),
        forall|j: int| 0 <= j < i ==> (#[trigger] l[j]).0 != k && !key_lt(k, l[j].0),
    ensures
        group_upsert(l, k, scope, plugin, kind) == l.take(i) + group_upsert(
            l.skip(i),
            k,
            scope,
            plugin,
            kind,
        ),
    decreases i,
{
    if i == 0 {
        assert(l.skip(0) =~= l);
        assert(l.take(0) + group_upsert(l, k, scope, plugin, kind) =~= group_upsert(
            l,
            k,
            scope,
            plugin,
            kind,
        ));
    } else {
        assert(l[0].0 != k && !key_lt(k, l[0].0));
        assert forall|j: int| 0 <= j < i - 1 implies (#[trigger] l.drop_first()[j]).0 != k
            && !key_lt(k, l.drop_first()[j].0) by {
            assert(l.drop_first()[j] == l[j + 1]);
        }
        lemma_group_upsert_at(l.drop_first(), k, scope, plugin, kind, i - 1);
        assert(l.drop_first().skip(i - 1) =~= l.skip(i));
        assert(seq![l[0]] + l.drop_first().take(i - 1) =~= l.take(i));
    }
}

spec fn groups_view(l: Seq<(Vec<char>, PrefGroup)>) -> Seq<(Seq<char>, GroupV)> {
    l.map_values(|e: (Vec<char>, PrefGroup)| (e.0@, group_view(e.1)))
}

fn new_group_exec(scope: PrefScope, plugin: &Option<String>) -> (res: PrefGroup)
    ensures
        group_view(res) == new_group(scope, opt_str(*plugin)),
{
    let (id, label) = match scope {
        PrefScope::Plugin => {
            let p = match plugin {
                Some(p) => p.clone(),
                None => "未知插件".to_string(),
            };
            (crate::text::cat2("plugin:", p.as_str()), crate::text::cat2("插件：", p.as_str()))
        },
        PrefScope::Zotero => ("zotero".to_string(), "Zotero 本身".to_string()),
        PrefScope::Browser => ("browser".to_string(), "Zotero 框架".to_string()),
        PrefScope::Unknown => ("unknown".to_string(), "未知来源".to_string()),
    };
    PrefGroup {
        id,
        label,
        scope,
        plugin: crate::text::copy_opt_string(plugin),
        total: 0,
        exportable: 0,
        paths: 0,
        sensitive: 0,
    }
}

fn count_in_exec(g: &mut PrefGroup, kind: PrefKind)
    requires
        old(g).total < usize::MAX,
        old(g).exportable < usize::MAX,
        old(g).paths < usize::MAX,
        old(g).sensitive < usize::MAX,
    ensures
        group_view(*final(g)) == count_in(group_view(*old(g)), kind),
{
    g.total = g.total + 1;
    g.exportable = g.exportable + 1;
    if kind == PrefKind::Path {
        g.paths = g.paths + 1;
    }
    if kind == PrefKind::Sensitive {
        g.sensitive = g.sensitive + 1;
    }
}

fn group_key_exec(scope: PrefScope, plugin: &Option<String>) -> (res: Vec<char>)
    ensures
        res@ == group_key(scope, opt_str(*plugin)),
{
    match scope {
        PrefScope::Plugin => {
            let mut v = chars_of("plugin:");
            match plugin {
                Some(p) => push_str(&mut v, p.as_str()),
                None => push_str(&mut v, "unknown"),
            }
            v
        },
        PrefScope::Zotero => chars_of("zotero"),
        PrefScope::Browser => chars_of("browser"),
        PrefScope::Unknown => chars_of("unknown"),
    }
}

/// Every count of every group stays below `n`.
spec fn groups_bounded(l: Seq<(Seq<char>, GroupV)>, n: nat) -> bool {
    forall|j: int|
        0 <= j < l.len() ==> (#[trigger] l[j]).1.total <= n && l[j].1.exportable <= n
            && l[j].1.paths <= n && l[j].1.sensitive <= n
}

proof fn lemma_group_upsert_bounded(
    l: Seq<(Seq<char>, GroupV)>,
    k: Seq<char>,
    scope: PrefScope,
    plugin: Option<Seq<char>>,
    kind: PrefKind,
    n: nat,
)
    requires
        groups_bounded(l, n),
    ensures
        groups_bounded(group_upsert(l, k, scope, plugin, kind), n + 1),
    decreases l.len(),
{
    let r = group_upsert(l, k, scope, plugin, kind);
    if l.len() == 0 {
    } else if l[0].0 == k {
        assert forall|j: int| 0 <= j < r.len() implies (#[trigger] r[j]).1.total <= n + 1
            && r[j].1.exportable <= n + 1 && r[j].1.paths <= n + 1 && r[j].1.sensitive <= n + 1 by {
            if j > 0 {
                assert(r[j] == l[j]);
            }
        }
    } else if key_lt(k, l[0].0) {
        assert forall|j: int| 0 <= j < r.len() implies (#[trigger] r[j]).1.total <= n + 1
            && r[j].1.exportable <= n + 1 && r[j].1.paths <= n + 1 && r[j].1.sensitive <= n + 1 by {
            if j > 0 {
                assert(r[j] == l[j - 1]);
            }
        }
    } else {
        assert(groups_bounded(l.drop_first(), n)) by {
            assert forall|j: int| 0 <= j < l.drop_first().len() implies (#[trigger] l.drop_first()[j]).1.total <= n
                && l.drop_first()[j].1.exportable <= n && l.drop_first()[j].1.paths <= n
                && l.drop_first()[j].1.sensitive <= n by {
                assert(l.drop_first()[j] == l[j + 1]);
            }
        }
        lemma_group_upsert_bounded(l.drop_first(), k, scope, plugin, kind, n);
        let t = group_upsert(l.drop_first(), k, scope, plugin, kind);
        assert forall|j: int| 0 <= j < r.len() implies (#[trigger] r[j]).1.total <= n + 1
            && r[j].1.exportable <= n + 1 && r[j].1.paths <= n + 1 && r[j].1.sensitive <= n + 1 by {
            if j > 0 {
                assert(r[j] == t[j - 1]);
            }
        }
    }
}

fn group_upsert_exec(
    l: &mut Vec<(Vec<char>, PrefGroup)>,
    scope: PrefScope,
    plugin: &Option<String>,
    kind: PrefKind,
    n: Ghost<nat>,
)
    requires
        groups_bounded(groups_view(old(l)@), n@),
        n@ < usize::MAX,
    ensures
        groups_view(final(l)@) == group_upsert(
            groups_view(old(l)@),
            group_key(scope, opt_str(*plugin)),
            scope,
            opt_str(*plugin),
            kind,
        ),
{
    let k = group_key_exec(scope, plugin);
    let ghost lv = groups_view(l@);
    let ghost pl = opt_str(*plugin);
    let mut i: usize = 0;
    while i < l.len() && !chars_eq(&l[i].0, &k) && !key_less(&k, &l[i].0)
        invariant
            i <= l.len(),
            lv == groups_view(l@),
            forall|j: int| 0 <= j < i ==> (#[trigger] lv[j]).0 != k@ && !key_lt(k@, lv[j].0),
        decreases l.len() - i,
    {
        i += 1;
    }
    proof {
        lemma_group_upsert_at(lv, k@, scope, pl, kind, i as int);
    }
    if i < l.len() && chars_eq(&l[i].0, &k) {
        assert(lv[i as int].1.total <= n@);
        let mut g = PrefGroup {
            id: l[i].1.id.clone(),
            label: l[i].1.label.clone(),
            scope: l[i].1.scope,
            plugin: crate::text::copy_opt_string(&l[i].1.plugin),
            total: l[i].1.total,
            exportable: l[i].1.exportable,
            paths: l[i].1.paths,
            sensitive: l[i].1.sensitive,
        };
        assert(group_view(g) == lv[i as int].1);
        count_in_exec(&mut g, kind);
        let ghost kv = k@;
        let ghost gv = group_view(g);
        l.set(i, (k, g));
        proof {
            assert(lv.skip(i as int)[0] == lv[i as int]);
            assert(groups_view(l@) =~= lv.take(i as int) + (seq![(kv, gv)] + lv.skip(i as int).drop_first()));
        }
    } else {
        let mut g = new_group_exec(scope, plugin);
        count_in_exec(&mut g, kind);
        let ghost kv = k@;
        let ghost gv = group_view(g);
        l.insert(i, (k, g));
        proof {
            if i < lv.len() {
                assert(lv.skip(i as int)[0] == lv[i as int]);
                assert(groups_view(l@) =~= lv.take(i as int) + (seq![(kv, gv)] + lv.skip(i as int)));
            } else {
                assert(lv.skip(i as int) =~= Seq::<(Seq<char>, GroupV)>::empty());
                assert(groups_view(l@) =~= lv.take(i as int) + seq![(kv, gv)]);
            }
        }
    }
}

/// The counts of a scan.
pub ghost struct ScanCounts {
    pub exportable: nat,
    pub portable: nat,
    pub paths: nat,
    pub plugins: nat,
    pub sensitive: nat,
}

pub open spec fn scan_counts(es: Seq<(PrefKind, PrefScope, Option<Seq<char>>)>) -> ScanCounts
    decreases es.len(),
{
    if es.len() == 0 {
        ScanCounts { exportable: 0, portable: 0, paths: 0, plugins: 0, sensitive: 0 }
    } else {
        let c = scan_counts(es.drop_last());
        let (kind, scope, _) = es.last();
        ScanCounts {
            exportable: c.exportable + 1,
            portable: if kind == PrefKind::Portable {
                c.portable + 1
            } else {
                c.portable
            },
            paths: if kind == PrefKind::Path {
                c.paths + 1
            } else {
                c.paths
            },
            sensitive: if kind == PrefKind::Sensitive {
                c.sensitive + 1
            } else {
                c.sensitive
            },
            plugins: if scope == PrefScope::Plugin {
                c.plugins + 1
            } else {
                c.plugins
            },
        }
    }
}

/// Every pref of a `prefs.js` text, counted by kind and grouped by owner
/// (groups in the order of their keys).
pub fn scan_text(profile: String, prefs_file: String, text: &str) -> (res: PrefsScan)
    ensures
        ({
            let infos = res.prefs@.map_values(|e: PrefEntry| entry_info(e));
            let c = scan_counts(infos);
            &&& res.profile == profile
            &&& res.prefs_file == prefs_file
            &&& res.prefs@.map_values(|e: PrefEntry| (e.key@, value_view(e.value))) == text_entries(
                text@,
            )
            &&& forall|j: int| 0 <= j < res.prefs@.len() ==> classified(#[trigger] res.prefs@[j])
            &&& res.total == res.prefs@.len()
            &&& res.exportable == c.exportable
            &&& res.portable == c.portable
            &&& res.paths == c.paths
            &&& res.plugins == c.plugins
            &&& res.sensitive == c.sensitive
            &&& res.groups@.map_values(|g: PrefGroup| group_view(g)) == groups_of(infos).map_values(
                |e: (Seq<char>, GroupV)| e.1,
            )
        }),
{
    let backup = backup_from_text(String::new(), String::new(), text);
    let prefs = backup.prefs;
    let ghost infos = prefs@.map_values(|e: PrefEntry| entry_info(e));
    let mut groups: Vec<(Vec<char>, PrefGroup)> = Vec::new();
    let mut exportable: usize = 0;
    let mut portable: usize = 0;
    let mut paths: usize = 0;
    let mut plugins: usize = 0;
    let mut sensitive: usize = 0;
    let mut i: usize = 0;
    assert(infos.take(0) =~= Seq::<(PrefKind, PrefScope, Option<Seq<char>>)>::empty());
    assert(groups_view(groups@) =~= Seq::<(Seq<char>, GroupV)>::empty());
    while i < prefs.len()
        invariant
            i <= prefs.len(),
            infos == prefs@.map_values(|e: PrefEntry| entry_info(e)),
            groups_view(groups@) == groups_of(infos.take(i as int)),
            groups_bounded(groups_view(groups@), i as nat),
            ({
                let c = scan_counts(infos.take(i as int));
                &&& exportable == c.exportable
                &&& portable == c.portable
                &&& paths == c.paths
                &&& plugins == c.plugins
                &&& sensitive == c.sensitive
            }),
            exportable == i,
            portable <= i && paths <= i && plugins <= i && sensitive <= i,
        decreases prefs.len() - i,
    {
        let e = &prefs[i];
        proof {
            assert(infos.take(i + 1).drop_last() =~= infos.take(i as int));
            assert(infos.take(i + 1).last() == infos[i as int]);
            lemma_group_upsert_bounded(
                groups_view(groups@),
                group_key(e.scope, opt_str(e.plugin)),
                e.scope,
                opt_str(e.plugin),
                e.kind,
                i as nat,
            );
        }
        group_upsert_exec(&mut groups, e.scope, &e.plugin, e.kind, Ghost(i as nat));
        exportable = exportable + 1;
        if e.kind == PrefKind::Portable {
            portable = portable + 1;
        }
        if e.kind == PrefKind::Path {
            paths = paths + 1;
        }
        if e.kind == PrefKind::Sensitive {
            sensitive = sensitive + 1;
        }
        if e.scope == PrefScope::Plugin {
            plugins = plugins + 1;
        }
        i += 1;
    }
    assert(infos.take(prefs.len() as int) =~= infos);
    let ghost gl = groups_view(groups@);
    let mut out: Vec<PrefGroup> = Vec::new();
    let mut j: usize = 0;
    while j < groups.len()
        invariant
            j <= groups.len(),
            gl == groups_view(groups@),
            out@.len() == j,
            forall|m: int| 0 <= m < j ==> group_view(#[trigger] out@[m]) == gl[m].1,
        decreases groups.len() - j,
    {
        let g = &groups[j].1;
        out.push(
            PrefGroup {
                id: g.id.clone(),
                label: g.label.clone(),
                scope: g.scope,
                plugin: crate::text::copy_opt_string(&g.plugin),
                total: g.total,
                exportable: g.exportable,
                paths: g.paths,
                sensitive: g.sensitive,
            },
        );
        j += 1;
    }
    assert(out@.map_values(|g: PrefGroup| group_view(g)) =~= gl.map_values(
        |e: (Seq<char>, GroupV)| e.1,
    ));
    let total = prefs.len();
    PrefsScan {
        profile,
        prefs_file,
        total,
        exportable,
        portable,
        paths,
        plugins,
        sensitive,
        groups: out,
        prefs,
    }
}

// ---------------------------------------------------------------------
// Laws
// ---------------------------------------------------------------------

/// Characters a float literal is made of.
pub open spec fn float_char(c: char) -> bool {
    crate::text::is_ascii_digit(c) || c == '+' || c == '-' || c == '.' || c == 'e' || c == 'E'
}

proof fn lemma_float_chars(t: Seq<char>)
    requires
        float_literal(t),
    ensures
        t.len() > 0,
        forall|i: int| 0 <= i < t.len() ==> float_char(#[trigger] t[i]),
        crate::text::is_ascii_digit(t[0]) || t[0] == '+' || t[0] == '-' || t[0] == '.',
{
    let signed = t.len() > 0 && (t[0] == '+' || t[0] == '-');
    let b = if signed {
        t.skip(1)
    } else {
        t
    };
    lemma_exp_pos(b);
    let e = exp_pos(b);
    let m = b.take(e);
    let dot = seq!['.'];
    lemma_find_from_props(m, dot, 0);
    assert forall|k: int| 0 <= k < e implies float_char(#[trigger] b[k]) by {
        assert(b[k] == m[k]);
        match find(m, dot) {
            Some(d) => {
                assert(crate::text::matches_at(m, dot, d));
                if k < d {
                    assert(m.take(d)[k] == m[k]);
                } else if k == d {
                    assert(m.subrange(d, d + 1)[0] == m[k]);
                } else {
                    assert(m.skip(d + 1)[k - d - 1] == m[k]);
                }
            },
            None => {},
        }
    }
    if e < b.len() {
        let x = b.skip(e);
        let y = x.skip(1);
        assert forall|k: int| e <= k < b.len() implies float_char(#[trigger] b[k]) by {
            if k == e {
                assert(b[k] == 'e' || b[k] == 'E');
            } else {
                assert(b[k] == y[k - e - 1]);
                if y[0] == '+' || y[0] == '-' {
                    if k - e - 1 > 0 {
                        assert(y[k - e - 1] == y.skip(1)[k - e - 2]);
                    }
                }
            }
        }
    }
    assert(e > 0) by {
        if e == 0 {
            assert(m.len() == 0);
            assert(find(m, dot) is None);
        }
    }
    assert forall|i: int| 0 <= i < t.len() implies float_char(#[trigger] t[i]) by {
        if signed {
            if i > 0 {
                assert(t[i] == b[i - 1]);
            }
        } else {
            assert(t[i] == b[i]);
        }
    }
    if !signed {
        assert(b[0] == m[0]);
        match find(m, dot) {
            Some(d) => {
                assert(crate::text::matches_at(m, dot, d));
                if d > 0 {
                    assert(m.take(d)[0] == m[0]);
                } else {
                    assert(m.subrange(0, 1)[0] == m[0]);
                }
            },
            None => {},
        }
    }
}

proof fn lemma_value_end_of(t: Seq<char>, rest: Seq<char>)
    requires
        forall|i: int|
            0 <= i < t.len() ==> (#[trigger] t[i]) != ')' && t[i] != ';' && !crate::text::is_ws(t[i]),
        rest.len() > 0,
        rest[0] == ')',
    ensures
        value_end(t + rest) == t.len(),
    decreases t.len(),
{
    if t.len() == 0 {
        assert((t + rest)[0] == ')');
    } else {
        assert((t + rest)[0] == t[0]);
        assert((t + rest).drop_first() =~= t.drop_first() + rest);
        assert forall|i: int| 0 <= i < t.drop_first().len() implies (#[trigger] t.drop_first()[i])
            != ')' && t.drop_first()[i] != ';' && !crate::text::is_ws(t.drop_first()[i]) by {
            assert(t.drop_first()[i] == t[i + 1]);
        }
        lemma_value_end_of(t.drop_first(), rest);
    }
}

/// A pref written as a line reads back as the same key and value (a float
/// held as the text of a decimal float literal).
pub proof fn law_pref_line_roundtrip(key: Seq<char>, v: PrefValueV)
    requires
        v matches PrefValueV::Float(t) ==> float_literal(t) && has_char(t, '.'),
    ensures
        pref_line_parts(pref_line_text(key, v)) == Some((key, v)),
{
    reveal_strlit("user_pref(\"");
    reveal_strlit("\", ");
    reveal_strlit(");");
    reveal_strlit("user_pref(");
    reveal_strlit("true");
    reveal_strlit("false");
    let lit = js_literal(v);
    let close = seq![')', ';'];
    assert(");"@ == close);
    let line = pref_line_text(key, v);
    // The literal is not empty and does not start with whitespace.
    let lit_ok = lit.len() > 0 && !crate::text::is_ws(lit[0]);
    match v {
        PrefValueV::Bool(b) => {},
        PrefValueV::Integer(i) => {
            crate::numbers::lemma_i64_text_chars(i);
        },
        PrefValueV::Float(t) => {
            lemma_float_chars(t);
        },
        PrefValueV::Str(s) => {},
    }
    assert(lit_ok);
    assert(line.len() > 0);
    assert(line[0] == 'u');
    assert(line.last() == ';');
    crate::text::lemma_trim_noop(line, Trim::Ws);
    let p = "user_pref("@;
    assert(line.take(10) =~= p);
    let r = line.skip(10);
    assert(r =~= seq!['"'] + js_escape(key) + ("\", "@ + lit + close));
    crate::text::lemma_trim_noop(r, Trim::Ws);
    lemma_starts_with_char(r, '"');
    let tail = seq![','] + seq![' '] + lit + close;
    assert(r.skip(1) =~= js_escape(key) + seq!['"'] + tail);
    crate::zotero_prefs::law_js_escape_roundtrip(key, tail);
    crate::text::lemma_trim_noop(tail, Trim::Ws);
    lemma_starts_with_char(tail, ',');
    let after = tail.skip(1);
    assert(after =~= seq![' '] + (lit + close));
    assert(!crate::text::is_ws((lit + close)[0]));
    assert(trim_start(after, Trim::Ws) == trim_start(after.drop_first(), Trim::Ws));
    assert(after.drop_first() =~= lit + close);
    crate::text::lemma_trim_noop(lit + close, Trim::Ws);
    let s = lit + close;
    lemma_starts_with_char(s, '"');
    match v {
        PrefValueV::Str(x) => {
            assert(s.skip(1) =~= js_escape(x) + seq!['"'] + close);
            crate::zotero_prefs::law_js_escape_roundtrip(x, close);
        },
        PrefValueV::Bool(b) => {
            if b {
                assert(s.take(4) =~= "true"@);
            } else {
                assert(s.take(5) =~= "false"@);
                assert(s[0] == 'f');
                assert(!starts_with(s, "true"@)) by {
                    if starts_with(s, "true"@) {
                        assert(s.take(4)[0] == 't');
                    }
                }
            }
        },
        PrefValueV::Integer(i) => {
            crate::numbers::lemma_i64_text_chars(i);
            crate::numbers::law_i64_text_roundtrip(i);
            assert(!starts_with(s, "true"@)) by {
                if starts_with(s, "true"@) {
                    assert(s.take(4)[0] == 't');
                }
            }
            assert(!starts_with(s, "false"@)) by {
                if starts_with(s, "false"@) {
                    assert(s.take(5)[0] == 'f');
                }
            }
            assert forall|k: int| 0 <= k < lit.len() implies (#[trigger] lit[k]) != ')' && lit[k]
                != ';' && !crate::text::is_ws(lit[k]) by {}
            lemma_value_end_of(lit, close);
            assert(s.take(lit.len() as int) =~= lit);
            assert(!has_char(lit, '.'));
        },
        PrefValueV::Float(t) => {
            lemma_float_chars(t);
            assert(!starts_with(s, "true"@)) by {
                if starts_with(s, "true"@) {
                    assert(s.take(4)[0] == 't');
                }
            }
            assert(!starts_with(s, "false"@)) by {
                if starts_with(s, "false"@) {
                    assert(s.take(5)[0] == 'f');
                }
            }
            assert(lit == t);
            assert forall|k: int| 0 <= k < lit.len() implies (#[trigger] lit[k]) != ')' && lit[k]
                != ';' && !crate::text::is_ws(lit[k]) by {
                assert(float_char(t[k]));
            }
            lemma_value_end_of(lit, close);
            assert(s.take(lit.len() as int) =~= lit);
        },
    }
}

/// No two entries share a key.
pub open spec fn distinct_keys(entries: Seq<(PrefKind, Seq<char>, PrefValueV)>) -> bool {
    forall|i: int, j: int| 0 <= i < j < entries.len() ==> #[trigger] entries[i].1 != #[trigger] entries[j].1
}

proof fn lemma_removed_from_entries(
    entries: Seq<(PrefKind, Seq<char>, PrefValueV)>,
    parsed: Seq<(int, Seq<char>, PrefValueV)>,
    restore_paths: bool,
    mappings: Seq<(Seq<char>, Seq<char>)>,
)
    ensures
        forall|x: Seq<char>|
            #[trigger] restore_fold(entries, parsed, restore_paths, mappings).removed.contains(x)
                ==> exists|j: int| 0 <= j < entries.len() && #[trigger] entries[j].1 == x,
    decreases entries.len(),
{
    if entries.len() > 0 {
        let prev = entries.drop_last();
        lemma_removed_from_entries(prev, parsed, restore_paths, mappings);
        let acc0 = restore_fold(prev, parsed, restore_paths, mappings);
        let acc = restore_fold(entries, parsed, restore_paths, mappings);
        assert forall|x: Seq<char>| #[trigger] acc.removed.contains(x) implies exists|j: int|
            0 <= j < entries.len() && #[trigger] entries[j].1 == x by {
            if acc0.removed.contains(x) {
                let j = choose|j: int| 0 <= j < prev.len() && #[trigger] prev[j].1 == x;
                assert(entries[j] == prev[j]);
            } else {
                let n = entries.len() - 1;
                let r = acc.removed;
                if r != acc0.removed {
                    let idx = choose|idx: int| 0 <= idx < r.len() && r[idx] == x;
                    if idx < acc0.removed.len() {
                        assert(acc0.removed[idx] == x);
                        assert(acc0.removed.contains(x));
                    }
                    assert(entries[n].1 == x);
                }
            }
        }
    }
}

proof fn lemma_preview_counts(
    entries: Seq<(PrefKind, Seq<char>, PrefValueV)>,
    parsed: Seq<(int, Seq<char>, PrefValueV)>,
    restore_paths: bool,
    mappings: Seq<(Seq<char>, Seq<char>)>,
)
    requires
        distinct_keys(entries),
    ensures
        preview_fold(entries, parsed, restore_paths, mappings).will_add == restore_fold(
            entries,
            parsed,
            restore_paths,
            mappings,
        ).added,
        preview_fold(entries, parsed, restore_paths, mappings).will_modify == restore_fold(
            entries,
            parsed,
            restore_paths,
            mappings,
        ).modified,
        preview_fold(entries, parsed, restore_paths, mappings).unchanged == restore_fold(
            entries,
            parsed,
            restore_paths,
            mappings,
        ).unchanged,
        preview_fold(entries, parsed, restore_paths, mappings).skipped == restore_fold(
            entries,
            parsed,
            restore_paths,
            mappings,
        ).skipped,
    decreases entries.len(),
{
    if entries.len() > 0 {
        let prev = entries.drop_last();
        let n = entries.len() - 1;
        assert forall|i: int, j: int| 0 <= i < j < prev.len() implies #[trigger] prev[i].1
            != #[trigger] prev[j].1 by {
            assert(prev[i] == entries[i] && prev[j] == entries[j]);
        }
        lemma_preview_counts(prev, parsed, restore_paths, mappings);
        lemma_removed_from_entries(prev, parsed, restore_paths, mappings);
        let acc0 = restore_fold(prev, parsed, restore_paths, mappings);
        let key = entries[n].1;
        if acc0.removed.contains(key) {
            let j = choose|j: int| 0 <= j < prev.len() && #[trigger] prev[j].1 == key;
            assert(entries[j] == prev[j]);
            assert(entries[j].1 != entries[n].1);
        }
    }
}

/// The preview shows what the import will do: for a backup whose keys are
/// distinct, the preview counts additions, modifications, unchanged prefs
/// and skipped paths exactly as restoring the same backup into the same
/// text reports them.
pub proof fn law_preview_matches_restore(
    text: Seq<char>,
    entries: Seq<(PrefKind, Seq<char>, PrefValueV)>,
    restore_paths: bool,
    mappings: Seq<(Seq<char>, Seq<char>)>,
)
    requires
        distinct_keys(entries),
    ensures
        ({
            let parsed = parsed_prefs(crate::text::lines(text));
            let p = preview_fold(entries, parsed, restore_paths, mappings);
            let r = restore_fold(entries, parsed, restore_paths, mappings);
            &&& p.will_add == r.added
            &&& p.will_modify == r.modified
            &&& p.unchanged == r.unchanged
            &&& p.skipped == r.skipped
        }),
{
    lemma_preview_counts(entries, parsed_prefs(crate::text::lines(text)), restore_paths, mappings);
}

/// No two prefs of a file share a key.
pub open spec fn distinct_parsed(parsed: Seq<(int, Seq<char>, PrefValueV)>) -> bool {
    forall|i: int, j: int| 0 <= i < j < parsed.len() ==> #[trigger] parsed[i].1 != #[trigger] parsed[j].1
}

proof fn lemma_last_pref_unique(parsed: Seq<(int, Seq<char>, PrefValueV)>, k: int)
    requires
        0 <= k < parsed.len(),
        distinct_parsed(parsed),
    ensures
        last_pref(parsed, parsed[k].1) == Some((parsed[k].0, parsed[k].2)),
    decreases parsed.len(),
{
    let n = parsed.len() - 1;
    if k < n {
        assert(parsed[k].1 != parsed[n].1);
        let d = parsed.drop_last();
        assert forall|i: int, j: int| 0 <= i < j < d.len() implies #[trigger] d[i].1
            != #[trigger] d[j].1 by {
            assert(d[i] == parsed[i] && d[j] == parsed[j]);
        }
        lemma_last_pref_unique(d, k);
        assert(d[k] == parsed[k]);
    }
}

proof fn lemma_own_backup_fold(
    entries: Seq<(PrefKind, Seq<char>, PrefValueV)>,
    parsed: Seq<(int, Seq<char>, PrefValueV)>,
    restore_paths: bool,
    k: int,
)
    requires
        entries.len() == parsed.len(),
        forall|j: int|
            0 <= j < entries.len() ==> (#[trigger] entries[j]).1 == parsed[j].1 && entries[j].2
                == parsed[j].2,
        distinct_parsed(parsed),
        0 <= k <= entries.len(),
    ensures
        ({
            let acc = restore_fold(entries.take(k), parsed, restore_paths, Seq::empty());
            &&& acc.repl.len() == 0
            &&& acc.adds.len() == 0
            &&& acc.applied == 0
        }),
    decreases k,
{
    if k > 0 {
        lemma_own_backup_fold(entries, parsed, restore_paths, k - 1);
        let prev = entries.take(k - 1);
        assert(entries.take(k).drop_last() =~= prev);
        assert(entries.take(k).last() == entries[k - 1]);
        lemma_removed_from_entries(prev, parsed, restore_paths, Seq::empty());
        let e = entries[k - 1];
        let acc0 = restore_fold(prev, parsed, restore_paths, Seq::empty());
        if acc0.removed.contains(e.1) {
            let j = choose|j: int| 0 <= j < prev.len() && #[trigger] prev[j].1 == e.1;
            assert(prev[j] == entries[j]);
            assert(parsed[j].1 != parsed[k - 1].1);
        }
        lemma_last_pref_unique(parsed, k - 1);
        assert(mapped_value(e.0, e.2, Seq::empty()) == e.2);
    }
}

/// Restoring a file's own backup changes nothing: when the prefs of a
/// `prefs.js` text have distinct keys, restoring entries that hold exactly
/// those keys and values, in order (whatever their kinds, with no path
/// mappings), applies nothing and writes every line back as it was.
pub proof fn law_restore_own_backup_is_identity(
    text: Seq<char>,
    entries: Seq<(PrefKind, Seq<char>, PrefValueV)>,
    restore_paths: bool,
)
    requires
        distinct_parsed(parsed_prefs(crate::text::lines(text))),
        entries.len() == parsed_prefs(crate::text::lines(text)).len(),
        forall|j: int|
            0 <= j < entries.len() ==> (#[trigger] entries[j]).1 == parsed_prefs(
                crate::text::lines(text),
            )[j].1 && entries[j].2 == parsed_prefs(crate::text::lines(text))[j].2,
    ensures
        restored_lines(text, entries, restore_paths, Seq::empty()) == crate::text::lines(text),
        restore_fold(
            entries,
            parsed_prefs(crate::text::lines(text)),
            restore_paths,
            Seq::empty(),
        ).applied == 0,
{
    let ls = crate::text::lines(text);
    let parsed = parsed_prefs(ls);
    lemma_own_backup_fold(entries, parsed, restore_paths, entries.len() as int);
    assert(entries.take(entries.len() as int) =~= entries);
    let acc = restore_fold(entries, parsed, restore_paths, Seq::empty());
    assert(replaced_lines(ls, acc.repl) =~= ls);
}

proof fn lemma_sorted_insert_lookup(l: Seq<(Seq<char>, PrefValueV)>, k: Seq<char>, v: PrefValueV, k2: Seq<char>)
    ensures
        lookup_key(sorted_insert(l, k, v), k2) == if k2 == k {
            Some(v)
        } else {
            lookup_key(l, k2)
        },
    decreases l.len(),
{
    let r = sorted_insert(l, k, v);
    if l.len() == 0 {
        assert(r[0] == (k, v));
        assert(r.drop_first() =~= Seq::<(Seq<char>, PrefValueV)>::empty());
        assert(lookup_key(r.drop_first(), k2) is None);
    } else if l[0].0 == k {
        assert(r[0] == (k, v));
        assert(r.drop_first() =~= l.drop_first());
    } else if key_lt(k, l[0].0) {
        assert(r[0] == (k, v));
        assert(r.drop_first() =~= l);
    } else {
        lemma_sorted_insert_lookup(l.drop_first(), k, v, k2);
        assert(r[0] == l[0]);
        assert(r.drop_first() =~= sorted_insert(l.drop_first(), k, v));
    }
}

proof fn lemma_sorted_insert_keys(l: Seq<(Seq<char>, PrefValueV)>, k: Seq<char>, v: PrefValueV)
    ensures
        forall|i: int|
            0 <= i < sorted_insert(l, k, v).len() ==> (#[trigger] sorted_insert(l, k, v)[i]).0 == k
                || exists|j: int| 0 <= j < l.len() && #[trigger] l[j].0 == sorted_insert(l, k, v)[i].0,
    decreases l.len(),
{
    let r = sorted_insert(l, k, v);
    if l.len() == 0 {
    } else if l[0].0 == k {
        assert forall|i: int| 0 <= i < r.len() implies (#[trigger] r[i]).0 == k || exists|j: int|
            0 <= j < l.len() && #[trigger] l[j].0 == r[i].0 by {
            if i > 0 {
                assert(r[i] == l[i]);
            }
        }
    } else if key_lt(k, l[0].0) {
        assert forall|i: int| 0 <= i < r.len() implies (#[trigger] r[i]).0 == k || exists|j: int|
            0 <= j < l.len() && #[trigger] l[j].0 == r[i].0 by {
            if i > 0 {
                assert(r[i] == l[i - 1]);
            }
        }
    } else {
        lemma_sorted_insert_keys(l.drop_first(), k, v);
        let t = sorted_insert(l.drop_first(), k, v);
        assert forall|i: int| 0 <= i < r.len() implies (#[trigger] r[i]).0 == k || exists|j: int|
            0 <= j < l.len() && #[trigger] l[j].0 == r[i].0 by {
            if i == 0 {
                assert(l[0].0 == r[0].0);
            } else {
                assert(r[i] == t[i - 1]);
                if t[i - 1].0 != k {
                    let j = choose|j: int|
                        0 <= j < l.drop_first().len() && #[trigger] l.drop_first()[j].0 == t[i
                            - 1].0;
                    assert(l[j + 1].0 == r[i].0);
                }
            }
        }
    }
}

/// No two entries share a key, and they hold the file's prefs in order.
spec fn own_entries(
    entries: Seq<(PrefKind, Seq<char>, PrefValueV)>,
    parsed: Seq<(int, Seq<char>, PrefValueV)>,
) -> bool {
    &&& entries.len() == parsed.len()
    &&& forall|j: int|
        0 <= j < entries.len() ==> (#[trigger] entries[j]).1 == parsed[j].1 && entries[j].2
            == parsed[j].2
    &&& distinct_parsed(parsed)
}

proof fn lemma_desired_of_own(entries: Seq<(PrefKind, Seq<char>, PrefValueV)>, parsed: Seq<(int, Seq<char>, PrefValueV)>)
    requires
        own_entries(entries, parsed),
    ensures
        forall|j: int|
            0 <= j < parsed.len() ==> lookup_key(desired_of(entries), (#[trigger] parsed[j]).1)
                == Some(parsed[j].2),
        forall|i: int|
            0 <= i < desired_of(entries).len() ==> exists|j: int|
                0 <= j < parsed.len() && #[trigger] parsed[j].1 == (#[trigger] desired_of(entries)[i]).0,
    decreases entries.len(),
{
    if entries.len() > 0 {
        let n = entries.len() - 1;
        let pe = entries.drop_last();
        let pp = parsed.drop_last();
        assert forall|j: int| 0 <= j < pe.len() implies (#[trigger] pe[j]).1 == pp[j].1 && pe[j].2
            == pp[j].2 by {
            assert(pe[j] == entries[j] && pp[j] == parsed[j]);
        }
        assert forall|i: int, j: int| 0 <= i < j < pp.len() implies #[trigger] pp[i].1
            != #[trigger] pp[j].1 by {
            assert(pp[i] == parsed[i] && pp[j] == parsed[j]);
        }
        lemma_desired_of_own(pe, pp);
        let d0 = desired_of(pe);
        let d = desired_of(entries);
        let (k, v) = (entries[n].1, entries[n].2);
        assert(d == sorted_insert(d0, k, v));
        assert forall|j: int| 0 <= j < parsed.len() implies lookup_key(d, (#[trigger] parsed[j]).1)
            == Some(parsed[j].2) by {
            lemma_sorted_insert_lookup(d0, k, v, parsed[j].1);
            if j < n {
                assert(pp[j] == parsed[j]);
                assert(parsed[j].1 != parsed[n].1);
            }
        }
        lemma_sorted_insert_keys(d0, k, v);
        assert forall|i: int| 0 <= i < d.len() implies exists|j: int|
            0 <= j < parsed.len() && #[trigger] parsed[j].1 == (#[trigger] d[i]).0 by {
            if d[i].0 == k {
                assert(parsed[n].1 == d[i].0);
            } else {
                let j0 = choose|j0: int| 0 <= j0 < d0.len() && #[trigger] d0[j0].0 == d[i].0;
                let j = choose|j: int| 0 <= j < pp.len() && #[trigger] pp[j].1 == (#[trigger] d0[j0]).0;
                assert(pp[j] == parsed[j]);
            }
        }
    }
}

proof fn lemma_save_fold_own(parsed: Seq<(int, Seq<char>, PrefValueV)>, desired: Seq<(Seq<char>, PrefValueV)>)
    requires
        forall|j: int|
            0 <= j < parsed.len() ==> lookup_key(desired, (#[trigger] parsed[j]).1) == Some(parsed[j].2),
    ensures
        ({
            let acc = save_fold(parsed, desired);
            &&& acc.repl.len() == 0
            &&& acc.removed.len() == 0
            &&& acc.applied == 0
            &&& acc.seen.len() == parsed.len()
            &&& forall|i: int| 0 <= i < parsed.len() ==> #[trigger] acc.seen[i] == parsed[i].1
        }),
    decreases parsed.len(),
{
    if parsed.len() > 0 {
        let pp = parsed.drop_last();
        assert forall|j: int| 0 <= j < pp.len() implies lookup_key(desired, (#[trigger] pp[j]).1)
            == Some(pp[j].2) by {
            assert(pp[j] == parsed[j]);
        }
        lemma_save_fold_own(pp, desired);
        let n = parsed.len() - 1;
        assert(lookup_key(desired, parsed[n].1) == Some(parsed[n].2));
        let acc0 = save_fold(pp, desired);
        let acc = save_fold(parsed, desired);
        assert forall|i: int| 0 <= i < parsed.len() implies #[trigger] acc.seen[i] == parsed[i].1 by {
            if i < n {
                assert(acc0.seen[i] == pp[i].1);
            }
        }
    }
}

proof fn lemma_unseen_empty(desired: Seq<(Seq<char>, PrefValueV)>, seen: Seq<Seq<char>>)
    requires
        forall|i: int| 0 <= i < desired.len() ==> seen.contains(#[trigger] desired[i].0),
    ensures
        unseen(desired, seen).len() == 0,
    decreases desired.len(),
{
    if desired.len() > 0 {
        let d = desired.drop_last();
        assert forall|i: int| 0 <= i < d.len() implies seen.contains(#[trigger] d[i].0) by {
            assert(d[i] == desired[i]);
        }
        lemma_unseen_empty(d, seen);
        assert(seen.contains(desired[desired.len() - 1].0));
    }
}

proof fn lemma_kept_all(ls: Seq<Seq<char>>, removed: Seq<int>)
    requires
        removed.len() == 0,
    ensures
        kept_lines(ls, removed) == ls,
    decreases ls.len(),
{
    if ls.len() > 0 {
        lemma_kept_all(ls.drop_last(), removed);
        assert(ls.drop_last().push(ls.last()) =~= ls);
    }
}

/// Writing back the unedited prefs of a file changes nothing: when the
/// prefs of a `prefs.js` text have distinct keys, saving entries that hold
/// exactly those keys and values, in order, writes every line back as it
/// was and deletes, rewrites and adds nothing.
pub proof fn law_save_own_entries_is_identity(
    text: Seq<char>,
    entries: Seq<(PrefKind, Seq<char>, PrefValueV)>,
)
    requires
        distinct_parsed(parsed_prefs(crate::text::lines(text))),
        entries.len() == parsed_prefs(crate::text::lines(text)).len(),
        forall|j: int|
            0 <= j < entries.len() ==> (#[trigger] entries[j]).1 == parsed_prefs(
                crate::text::lines(text),
            )[j].1 && entries[j].2 == parsed_prefs(crate::text::lines(text))[j].2,
    ensures
        saved_lines(text, entries) == crate::text::lines(text),
        save_fold(parsed_prefs(crate::text::lines(text)), desired_of(entries)).applied == 0,
{
    let ls = crate::text::lines(text);
    let parsed = parsed_prefs(ls);
    let desired = desired_of(entries);
    assert(own_entries(entries, parsed));
    lemma_desired_of_own(entries, parsed);
    lemma_save_fold_own(parsed, desired);
    let acc = save_fold(parsed, desired);
    assert forall|i: int| 0 <= i < desired.len() implies acc.seen.contains(#[trigger] desired[i].0) by {
        let j = choose|j: int| 0 <= j < parsed.len() && #[trigger] parsed[j].1 == (#[trigger] desired[i]).0;
        assert(acc.seen[j] == parsed[j].1);
    }
    lemma_unseen_empty(desired, acc.seen);
    assert(replaced_lines(ls, acc.repl) =~= ls);
    lemma_kept_all(replaced_lines(ls, acc.repl), acc.removed);
}

} // verus!
