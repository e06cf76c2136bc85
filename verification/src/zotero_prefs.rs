//! Zotero's own settings: the default profile in `profiles.ini`, string
//! prefs in `prefs.js`, and the choice of the mirror filename template.
//!
//! Resolution order for the mirror filename template:
//! 1. A custom template configured here (non-empty and different from the
//!    built-in legacy default).
//! 2. Zotero's `extensions.zotero.attachmentRenameTemplate` pref.
//! 3. The built-in legacy default.

use crate::config::DEFAULT_TEMPLATE;
use crate::text::{
    chars_eq, chars_of, find, find_chars, lemma_find_from_props, lines, lines_of, push_str,
    slice_chars, starts_with, starts_with_chars, string_of, trim, trim_chars, Trim,
};
use vstd::prelude::*;

verus! {

/// The Zotero pref holding the attachment rename template.
pub const PREF_NAME: &'static str = "extensions.zotero.attachmentRenameTemplate";

// ---------------------------------------------------------------------
// JavaScript string literals
// ---------------------------------------------------------------------

/// The character that an escape `\c` stands for.
pub open spec fn js_unescape(c: char) -> char {
    if c == 'n' {
        '\n'
    } else if c == 't' {
        '\t'
    } else if c == 'r' {
        '\r'
    } else {
        c
    }
}

pub fn js_unescape_char(c: char) -> (res: char)
    ensures
        res == js_unescape(c),
{
    if c == 'n' {
        '\n'
    } else if c == 't' {
        '\t'
    } else if c == 'r' {
        '\r'
    } else {
        c
    }
}

/// Decode the body of a JS string literal (after its opening quote): the
/// value up to the first unescaped `"`, and the text after that quote.
/// `None` when the literal is not closed.
pub open spec fn js_decode(s: Seq<char>) -> Option<(Seq<char>, Seq<char>)>
    decreases s.len(),
{
    if s.len() == 0 {
        None
    } else if s[0] == '"' {
        Some((Seq::empty(), s.skip(1)))
    } else if s[0] == '\\' {
        if s.len() < 2 {
            None
        } else {
            match js_decode(s.skip(2)) {
                Some((v, rest)) => Some((seq![js_unescape(s[1])] + v, rest)),
                None => None,
            }
        }
    } else {
        match js_decode(s.skip(1)) {
            Some((v, rest)) => Some((seq![s[0]] + v, rest)),
            None => None,
        }
    }
}

/// Decode a JS string body starting at `start`; returns the value and the
/// index just after the closing quote.
pub fn js_decode_from(s: &Vec<char>, start: usize) -> (res: Option<(Vec<char>, usize)>)
    requires
        start <= s.len(),
    ensures
        match js_decode(s@.skip(start as int)) {
            Some((v, rest)) => res matches Some((val, end)) && val@ == v && end <= s.len()
                && rest == s@.skip(end as int),
            None => res is None,
        },
{
    let mut out: Vec<char> = Vec::new();
    let mut i = start;
    loop
        invariant
            start <= i <= s.len(),
            js_decode(s@.skip(start as int)) == (match js_decode(s@.skip(i as int)) {
                Some((v, rest)) => Some((out@ + v, rest)),
                None => None,
            }),
        decreases s.len() - i,
    {
        let ghost t = s@.skip(i as int);
        if i == s.len() {
            return None;
        }
        let c = s[i];
        if c == '"' {
            proof {
                assert(t.skip(1) =~= s@.skip(i + 1));
                assert(out@ + Seq::<char>::empty() =~= out@);
            }
            return Some((out, i + 1));
        }
        if c == '\\' {
            if i + 1 >= s.len() {
                return None;
            }
            let d = js_unescape_char(s[i + 1]);
            proof {
                assert(t.skip(2) =~= s@.skip(i + 2));
                assert forall|v: Seq<char>| #![auto] out@.push(d) + v =~= out@ + (seq![d] + v) by {}
            }
            out.push(d);
            i += 2;
        } else {
            proof {
                assert(t.skip(1) =~= s@.skip(i + 1));
                assert forall|v: Seq<char>| #![auto] out@.push(c) + v =~= out@ + (seq![c] + v) by {}
            }
            out.push(c);
            i += 1;
        }
    }
}

/// The escape text of one character inside a JS string literal.
pub open spec fn js_escape_char(c: char) -> Seq<char> {
    if c == '\\' {
        seq!['\\', '\\']
    } else if c == '"' {
        seq!['\\', '"']
    } else if c == '\n' {
        seq!['\\', 'n']
    } else if c == '\r' {
        seq!['\\', 'r']
    } else if c == '\t' {
        seq!['\\', 't']
    } else {
        seq![c]
    }
}

/// Escape a value for a double-quoted JS string literal.
pub open spec fn js_escape(s: Seq<char>) -> Seq<char>
    decreases s.len(),
{
    if s.len() == 0 {
        Seq::empty()
    } else {
        js_escape_char(s[0]) + js_escape(s.skip(1))
    }
}

proof fn lemma_js_escape_push(s: Seq<char>, c: char)
    ensures
        js_escape(s.push(c)) == js_escape(s) + js_escape_char(c),
    decreases s.len(),
{
    if s.len() == 0 {
        assert(s.push(c).skip(1) =~= Seq::<char>::empty());
        assert(js_escape(s.push(c)) == js_escape_char(c) + js_escape(Seq::<char>::empty()));
        assert(js_escape_char(c) + Seq::<char>::empty() =~= js_escape_char(c));
    } else {
        assert(s.push(c).skip(1) =~= s.skip(1).push(c));
        lemma_js_escape_push(s.skip(1), c);
        assert(s.push(c)[0] == s[0]);
    }
}

/// Escape a value for a double-quoted JS string literal.
pub fn escape_js_string(value: &str) -> (res: String)
    ensures
        res@ == js_escape(value@),
{
    let v = chars_of(value);
    let mut out: Vec<char> = Vec::new();
    let mut i: usize = 0;
    while i < v.len()
        invariant
            i <= v.len(),
            out@ == js_escape(v@.take(i as int)),
        decreases v.len() - i,
    {
        let c = v[i];
        proof {
            assert(v@.take(i + 1) =~= v@.take(i as int).push(c));
            lemma_js_escape_push(v@.take(i as int), c);
        }
        if c == '\\' {
            out.push('\\');
            out.push('\\');
        } else if c == '"' {
            out.push('\\');
            out.push('"');
        } else if c == '\n' {
            out.push('\\');
            out.push('n');
        } else if c == '\r' {
            out.push('\\');
            out.push('r');
        } else if c == '\t' {
            out.push('\\');
            out.push('t');
        } else {
            out.push(c);
        }
        i += 1;
    }
    proof {
        assert(v@.take(v.len() as int) =~= v@);
    }
    string_of(&out)
}

/// Decoding an escaped value, closed by a quote, gives the value back and
/// leaves the text after the quote untouched.
pub proof fn law_js_escape_roundtrip(v: Seq<char>, rest: Seq<char>)
    ensures
        js_decode(js_escape(v) + seq!['"'] + rest) == Some((v, rest)),
    decreases v.len(),
{
    let whole = js_escape(v) + seq!['"'] + rest;
    if v.len() == 0 {
        assert(whole =~= seq!['"'] + rest);
        assert(whole.skip(1) =~= rest);
    } else {
        let c = v[0];
        let tail = js_escape(v.skip(1)) + seq!['"'] + rest;
        law_js_escape_roundtrip(v.skip(1), rest);
        assert(whole =~= js_escape_char(c) + tail);
        assert(v =~= seq![c] + v.skip(1));
        if c == '\\' || c == '"' || c == '\n' || c == '\r' || c == '\t' {
            assert(whole.skip(2) =~= tail);
        } else {
            assert(whole.skip(1) =~= tail);
        }
    }
}

// ---------------------------------------------------------------------
// prefs.js string prefs
// ---------------------------------------------------------------------

/// The text that starts the value of string pref `name`.
pub open spec fn pref_needle(name: Seq<char>) -> Seq<char> {
    "user_pref(\""@ + name + "\", \""@
}

/// The value of `user_pref("name", "value");` in prefs.js text: the first
/// occurrence of the pref, decoded up to its closing quote.
pub open spec fn pref_value(text: Seq<char>, name: Seq<char>) -> Option<Seq<char>> {
    match find(text, pref_needle(name)) {
        Some(i) => match js_decode(text.skip(i + pref_needle(name).len())) {
            Some((v, _rest)) => Some(v),
            None => None,
        },
        None => None,
    }
}

/// Parse `user_pref("name", "value");` from prefs.js content.
pub fn parse_pref(text: &str, name: &str) -> (res: Option<String>)
    ensures
        match pref_value(text@, name@) {
            Some(v) => res matches Some(r) && r@ == v,
            None => res is None,
        },
{
    let t = chars_of(text);
    let mut needle: Vec<char> = Vec::new();
    push_str(&mut needle, "user_pref(\"");
    push_str(&mut needle, name);
    push_str(&mut needle, "\", \"");
    match find_chars(&t, &needle) {
        None => None,
        Some(i) => {
            proof {
                lemma_find_from_props(t@, needle@, 0);
            }
            assert(i + needle.len() <= t.len());
            match js_decode_from(&t, i + needle.len()) {
                Some((v, _end)) => Some(string_of(&v)),
                None => None,
            }
        },
    }
}

// ---------------------------------------------------------------------
// profiles.ini
// ---------------------------------------------------------------------

/// Walk the lines of profiles.ini. The state is: inside a `[Profile...]`
/// section, its `Path=`, whether it has `Default=1`, and the path of the
/// first complete profile section.
pub open spec fn scan_profiles(
    lines: Seq<Seq<char>>,
    in_profile: bool,
    path: Option<Seq<char>>,
    is_default: bool,
    first: Option<Seq<char>>,
) -> Option<Seq<char>>
    decreases lines.len(),
{
    if lines.len() == 0 {
        if in_profile && is_default && path is Some {
            path
        } else if first is Some {
            first
        } else {
            path
        }
    } else {
        let line = trim(lines[0], Trim::Ws);
        let rest = lines.drop_first();
        if starts_with(line, "["@) {
            if in_profile && path is Some && is_default {
                path
            } else {
                let first2 = if in_profile && path is Some && first is None {
                    path
                } else {
                    first
                };
                scan_profiles(rest, starts_with(line, "[Profile"@), None, false, first2)
            }
        } else if !in_profile {
            scan_profiles(rest, in_profile, path, is_default, first)
        } else if starts_with(line, "Path="@) {
            scan_profiles(rest, in_profile, Some(trim(line.skip(5), Trim::Ws)), is_default, first)
        } else if line == "Default=1"@ {
            scan_profiles(rest, in_profile, path, true, first)
        } else {
            scan_profiles(rest, in_profile, path, is_default, first)
        }
    }
}

/// The `Path=` of the default profile: the first profile marked
/// `Default=1`, else the first profile with a path.
pub open spec fn default_profile(ini: Seq<char>) -> Option<Seq<char>> {
    scan_profiles(lines(ini), false, None, false, None)
}

/// Extract the `Path=` of the default profile from profiles.ini text.
pub fn parse_default_profile(ini: &str) -> (res: Option<String>)
    ensures
        match default_profile(ini@) {
            Some(p) => res matches Some(r) && r@ == p,
            None => res is None,
        },
{
    let text = chars_of(ini);
    let ls = lines_of(&text);
    let ghost all = ls@.map_values(|l: Vec<char>| l@);
    let open_br = chars_of("[");
    let profile = chars_of("[Profile");
    let path_eq = chars_of("Path=");
    let default_one = chars_of("Default=1");
    let mut in_profile = false;
    let mut path: Option<Vec<char>> = None;
    let mut is_default = false;
    let mut first: Option<Vec<char>> = None;
    let mut k: usize = 0;
    assert(all.skip(0) =~= all);
    while k < ls.len()
        invariant
            k <= ls.len(),
            all == ls@.map_values(|l: Vec<char>| l@),
            all.len() == ls.len(),
            open_br@ == "["@,
            profile@ == "[Profile"@,
            path_eq@ == "Path="@,
            default_one@ == "Default=1"@,
            default_profile(ini@) == scan_profiles(
                all.skip(k as int),
                in_profile,
                match path {
                    Some(p) => Some(p@),
                    None => None,
                },
                is_default,
                match first {
                    Some(p) => Some(p@),
                    None => None,
                },
            ),
        decreases ls.len() - k,
    {
        let ghost rest = all.skip(k as int);
        proof {
            assert(rest[0] == ls@[k as int]@);
            assert(rest.drop_first() =~= all.skip(k + 1));
        }
        let line = trim_chars(&ls[k], Trim::Ws);
        if starts_with_chars(&line, &open_br) {
            if in_profile && path.is_some() {
                if first.is_none() {
                    first = path.clone();
                }
                if is_default {
                    return match path {
                        Some(p) => Some(string_of(&p)),
                        None => None,
                    };
                }
            }
            in_profile = starts_with_chars(&line, &profile);
            path = None;
            is_default = false;
        } else if !in_profile {
        } else if starts_with_chars(&line, &path_eq) {
            proof {
                reveal_strlit("Path=");
            }
            let v = slice_chars(&line, 5, line.len());
            assert(v@ =~= line@.skip(5));
            path = Some(trim_chars(&v, Trim::Ws));
        } else if chars_eq(&line, &default_one) {
            is_default = true;
        }
        k += 1;
    }
    proof {
        assert(all.skip(k as int) =~= Seq::<Seq<char>>::empty());
    }
    if in_profile && is_default && path.is_some() {
        return match path {
            Some(p) => Some(string_of(&p)),
            None => None,
        };
    }
    match first {
        Some(p) => Some(string_of(&p)),
        None => match path {
            Some(p) => Some(string_of(&p)),
            None => None,
        },
    }
}

// ---------------------------------------------------------------------
// Template resolution
// ---------------------------------------------------------------------

/// The effective filename template: a custom configured template wins,
/// then Zotero's attachment rename template where it is not blank, then the
/// built-in default. The result is never empty.
pub open spec fn effective_template(configured: Seq<char>, zotero: Option<Seq<char>>) -> Seq<
    char,
> {
    let c = trim(configured, Trim::Ws);
    if c.len() > 0 && c != DEFAULT_TEMPLATE@ {
        c
    } else {
        match zotero {
            Some(z) => if trim(z, Trim::Ws).len() > 0 {
                z
            } else {
                DEFAULT_TEMPLATE@
            },
            None => DEFAULT_TEMPLATE@,
        }
    }
}

/// Resolve the effective filename template from the configured one and
/// the template read from Zotero's prefs (`None` when Zotero has none; a
/// blank one counts as none).
pub fn resolve_template(configured: &str, zotero_template: Option<String>) -> (res: String)
    ensures
        res@.len() > 0,
        res@ == effective_template(
            configured@,
            match zotero_template {
                Some(z) => Some(z@),
                None => None,
            },
        ),
{
    let c = trim_chars(&chars_of(configured), Trim::Ws);
    let d = chars_of(DEFAULT_TEMPLATE);
    if c.len() > 0 && !chars_eq(&c, &d) {
        return string_of(&c);
    }
    proof {
        reveal_strlit("{primary_creator} - {year} - {title} -- {item_key}");
    }
    match zotero_template {
        Some(z) => {
            let zt = trim_chars(&chars_of(z.as_str()), Trim::Ws);
            if zt.len() > 0 {
                z
            } else {
                DEFAULT_TEMPLATE.to_owned()
            }
        },
        None => DEFAULT_TEMPLATE.to_owned(),
    }
}

/// A non-empty custom template is used as configured, whatever Zotero says.
pub proof fn law_custom_template_wins(configured: Seq<char>, zotero: Option<Seq<char>>)
    requires
        trim(configured, Trim::Ws) == configured,
        configured.len() > 0,
        configured != DEFAULT_TEMPLATE@,
    ensures
        effective_template(configured, zotero) == configured,
{
}

} // verus!
