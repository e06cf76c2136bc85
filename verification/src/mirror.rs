//! Platform shortcut files that point at `zotero://select/...` URIs:
//! Windows `.url` Internet Shortcuts and macOS `.webloc` property lists.

use crate::models::Platform;
use crate::text::{
    cat2, cat3, chars_of, ends_with, ends_with_chars, matches_at, matches_at_chars, push_str,
    replace_all, replace_chars, slice_chars, string_of,
};
use vstd::prelude::*;

verus! {

/// A platform-specific shortcut backend.
pub trait MirrorBackend {
    fn platform(&self) -> Platform;

    fn extension(&self) -> &'static str;

    fn build_content(&self, select_uri: &str) -> String;
}

/// Windows `.url` Internet Shortcut backend.
pub struct WindowsUrlBackend;

/// macOS `.webloc` backend.
pub struct MacosWeblocBackend;

/// The text of a `.url` file.
pub open spec fn url_file(select_uri: Seq<char>) -> Seq<char> {
    "[InternetShortcut]\r\nURL="@ + select_uri + "\r\n"@
}

impl MirrorBackend for WindowsUrlBackend {
    fn platform(&self) -> (res: Platform)
        ensures
            res == Platform::Windows,
    {
        Platform::Windows
    }

    fn extension(&self) -> (res: &'static str)
        ensures
            res@ == "url"@,
    {
        "url"
    }

    fn build_content(&self, select_uri: &str) -> (res: String)
        ensures
            res@ == url_file(select_uri@),
    {
        cat3("[InternetShortcut]\r\nURL=", select_uri, "\r\n")
    }
}

/// The plist text before the URI.
pub open spec fn webloc_head() -> Seq<char> {
    "<?xml version=\"1.0\" encoding=\"UTF-8\"?>\n<!DOCTYPE plist PUBLIC \"-//Apple//DTD PLIST 1.0//EN\"\n  \"http://www.apple.com/DTDs/PropertyList-1.0.dtd\">\n<plist version=\"1.0\">\n<dict>\n  <key>URL</key>\n  <string>"@
}

/// The plist text after the URI.
pub open spec fn webloc_tail() -> Seq<char> {
    "</string>\n</dict>\n</plist>\n"@
}

/// `&`, `<` and `>` escaped for a plist string, in that order.
pub open spec fn xml_escape(s: Seq<char>) -> Seq<char> {
    replace_all(replace_all(replace_all(s, "&"@, "&amp;"@), "<"@, "&lt;"@), ">"@, "&gt;"@)
}

/// The text of a `.webloc` file.
pub open spec fn webloc_file(select_uri: Seq<char>) -> Seq<char> {
    webloc_head() + xml_escape(select_uri) + webloc_tail()
}

impl MirrorBackend for MacosWeblocBackend {
    fn platform(&self) -> (res: Platform)
        ensures
            res == Platform::Macos,
    {
        Platform::Macos
    }

    fn extension(&self) -> (res: &'static str)
        ensures
            res@ == "webloc"@,
    {
        "webloc"
    }

    fn build_content(&self, select_uri: &str) -> (res: String)
        ensures
            res@ == webloc_file(select_uri@),
    {
        proof {
            reveal_strlit("&");
            reveal_strlit("<");
            reveal_strlit(">");
        }
        let s = chars_of(select_uri);
        let a = replace_chars(&s, &chars_of("&"), &chars_of("&amp;"));
        let b = replace_chars(&a, &chars_of("<"), &chars_of("&lt;"));
        let c = replace_chars(&b, &chars_of(">"), &chars_of("&gt;"));
        let mut out: Vec<char> = Vec::new();
        push_str(
            &mut out,
            "<?xml version=\"1.0\" encoding=\"UTF-8\"?>\n<!DOCTYPE plist PUBLIC \"-//Apple//DTD PLIST 1.0//EN\"\n  \"http://www.apple.com/DTDs/PropertyList-1.0.dtd\">\n<plist version=\"1.0\">\n<dict>\n  <key>URL</key>\n  <string>",
        );
        crate::text::push_all(&mut out, &c);
        push_str(&mut out, "</string>\n</dict>\n</plist>\n");
        string_of(&out)
    }
}

/// The backend of one platform.
#[derive(Clone, Copy, PartialEq, Eq, Structural)]
pub enum Backend {
    WindowsUrl,
    MacosWebloc,
}

impl Backend {
    pub open spec fn platform_spec(self) -> Platform {
        match self {
            Backend::WindowsUrl => Platform::Windows,
            Backend::MacosWebloc => Platform::Macos,
        }
    }

    /// The file extension, without the dot.
    pub open spec fn ext_spec(self) -> Seq<char> {
        match self {
            Backend::WindowsUrl => "url"@,
            Backend::MacosWebloc => "webloc"@,
        }
    }

    /// The shortcut file text for a URI.
    pub open spec fn content_spec(self, select_uri: Seq<char>) -> Seq<char> {
        match self {
            Backend::WindowsUrl => url_file(select_uri),
            Backend::MacosWebloc => webloc_file(select_uri),
        }
    }
}

impl MirrorBackend for Backend {
    fn platform(&self) -> (res: Platform)
        ensures
            res == self.platform_spec(),
    {
        match self {
            Backend::WindowsUrl => WindowsUrlBackend.platform(),
            Backend::MacosWebloc => MacosWeblocBackend.platform(),
        }
    }

    fn extension(&self) -> (res: &'static str)
        ensures
            res@ == self.ext_spec(),
    {
        match self {
            Backend::WindowsUrl => WindowsUrlBackend.extension(),
            Backend::MacosWebloc => MacosWeblocBackend.extension(),
        }
    }

    fn build_content(&self, select_uri: &str) -> (res: String)
        ensures
            res@ == self.content_spec(select_uri@),
    {
        match self {
            Backend::WindowsUrl => WindowsUrlBackend.build_content(select_uri),
            Backend::MacosWebloc => MacosWeblocBackend.build_content(select_uri),
        }
    }
}

/// Get the backend for a platform.
pub fn backend_for(platform: Platform) -> (res: Backend)
    ensures
        res.platform_spec() == platform,
{
    match platform {
        Platform::Windows => Backend::WindowsUrl,
        Platform::Macos => Backend::MacosWebloc,
    }
}

/// The last occurrence of `p` in `s` that starts at or before `i`.
pub open spec fn rfind_upto(s: Seq<char>, p: Seq<char>, i: int) -> Option<int>
    decreases i + 1,
{
    if i < 0 {
        None
    } else if matches_at(s, p, i) {
        Some(i)
    } else {
        rfind_upto(s, p, i - 1)
    }
}

/// The last occurrence of `p` in `s` (`str::rfind`).
pub open spec fn rfind(s: Seq<char>, p: Seq<char>) -> Option<int> {
    rfind_upto(s, p, s.len() - p.len())
}

/// The item key that a shortcut file name carries: the name must end with
/// `.<ext>`, and the key is what follows the last ` -- ` before it, when
/// that is not empty.
pub open spec fn mirror_key(name: Seq<char>, ext: Seq<char>) -> Option<Seq<char>> {
    let suffix = "."@ + ext;
    if !ends_with(name, suffix) {
        None
    } else {
        let stem = name.take(name.len() - suffix.len());
        match rfind(stem, " -- "@) {
            None => None,
            Some(pos) => if stem.skip(pos + 4).len() == 0 {
                None
            } else {
                Some(stem.skip(pos + 4))
            },
        }
    }
}

fn rfind_chars(s: &Vec<char>, p: &Vec<char>) -> (res: Option<usize>)
    ensures
        match res {
            Some(k) => rfind(s@, p@) == Some(k as int),
            None => rfind(s@, p@) is None,
        },
{
    if p.len() > s.len() {
        return None;
    }
    let mut i = s.len() - p.len();
    loop
        invariant
            i + p.len() <= s.len(),
            rfind(s@, p@) == rfind_upto(s@, p@, i as int),
        decreases i,
    {
        if matches_at_chars(s, p, i) {
            return Some(i);
        }
        if i == 0 {
            assert(rfind_upto(s@, p@, -1) is None);
            return None;
        }
        i -= 1;
    }
}

/// The item key of a shortcut file name with extension `ext`, or `None`
/// when the name is not one the mirror writes.
pub fn mirror_item_key(name: &str, ext: &str) -> (res: Option<String>)
    ensures
        match mirror_key(name@, ext@) {
            None => res is None,
            Some(k) => res matches Some(r) && r@ == k,
        },
{
    let v = chars_of(name);
    let suffix = chars_of(&cat2(".", ext));
    proof {
        reveal_strlit(".");
        reveal_strlit(" -- ");
        assert(suffix@ =~= "."@ + ext@);
    }
    if !ends_with_chars(&v, &suffix) {
        return None;
    }
    let stem = slice_chars(&v, 0, v.len() - suffix.len());
    proof {
        assert(stem@ =~= v@.take(v@.len() - suffix@.len()));
    }
    match rfind_chars(&stem, &chars_of(" -- ")) {
        None => None,
        Some(pos) => {
            proof {
                lemma_rfind_upto_matches(stem@, " -- "@, stem@.len() - 4);
                assert(pos + 4 <= stem@.len());
            }
            let key = slice_chars(&stem, pos + 4, stem.len());
            proof {
                assert(key@ =~= stem@.skip(pos + 4));
            }
            if key.len() == 0 {
                None
            } else {
                Some(string_of(&key))
            }
        },
    }
}

proof fn lemma_rfind_upto_matches(s: Seq<char>, p: Seq<char>, i: int)
    ensures
        rfind_upto(s, p, i) matches Some(k) ==> matches_at(s, p, k),
    decreases i + 1,
{
    if i >= 0 && !matches_at(s, p, i) {
        lemma_rfind_upto_matches(s, p, i - 1);
    }
}

proof fn lemma_rfind_upto_last(s: Seq<char>, p: Seq<char>, i: int, m: int)
    requires
        0 <= m <= i,
        matches_at(s, p, m),
        forall|j: int| m < j <= i ==> !matches_at(s, p, j),
    ensures
        rfind_upto(s, p, i) == Some(m),
    decreases i - m,
{
    if i > m {
        lemma_rfind_upto_last(s, p, i - 1, m);
    }
}

/// The names the mirror writes are the ones its cleanup recognises: a
/// base name, ` -- `, a non-empty key without spaces and `.<ext>` give the
/// key back.
pub proof fn law_mirror_key_roundtrip(base: Seq<char>, key: Seq<char>, ext: Seq<char>)
    requires
        key.len() > 0,
        !key.contains(' '),
    ensures
        mirror_key(base + " -- "@ + key + "."@ + ext, ext) == Some(key),
{
    reveal_strlit(" -- ");
    reveal_strlit(".");
    let stem = base + " -- "@ + key;
    let name = stem + "."@ + ext;
    let suffix = "."@ + ext;
    assert(name =~= stem + suffix);
    assert(name.skip(name.len() - suffix.len()) =~= suffix);
    assert(name.take(name.len() - suffix.len()) =~= stem);
    let b = base.len() as int;
    assert(stem.subrange(b, b + 4) =~= " -- "@);
    assert forall|j: int| b < j <= stem.len() - 4 implies !matches_at(stem, " -- "@, j) by {
        if matches_at(stem, " -- "@, j) {
            assert(stem.subrange(j, j + 4)[3] == ' ');
            assert(stem[j + 3] == ' ');
            assert(key[j + 3 - b - 4] == stem[j + 3]);
            assert(key.contains(' '));
        }
    }
    lemma_rfind_upto_last(stem, " -- "@, stem.len() - 4, b);
    assert(stem.skip(b + 4) =~= key);
}

} // verus!
