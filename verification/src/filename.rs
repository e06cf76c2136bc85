//! Mirror filename templates and cross-platform sanitization.

use crate::models::IndexedItem;
use crate::text::{
    char_vec1, char_vec2,
    chars_of, collapse, collapse_chars, concat_chars, contains, contains_chars, find, find_chars,
    in_trim, is_ctrl, is_ctrl_char, is_ws, lemma_find_from_le, lemma_find_from_props,
    lemma_replace_shrinks, matches_at, push_str, replace_all, replace_chars, slice_chars,
    string_of, trim, trim_chars, trim_end, trim_end_chars, trim_start, Trim,
};
use crate::ztemplate::{self, open_braces, DataV, TemplateData};
use vstd::prelude::*;

verus! {

/// Maximum base filename length (without extension), in characters.
pub const MAX_BASENAME_CHARS: usize = 180;

/// Characters that no Windows or macOS filename may hold.
pub open spec fn is_illegal(c: char) -> bool {
    c == '<' || c == '>' || c == ':' || c == '"' || c == '/' || c == '\\' || c == '|' || c == '?'
        || c == '*'
}

fn is_illegal_char(c: char) -> (res: bool)
    ensures
        res == is_illegal(c),
{
    c == '<' || c == '>' || c == ':' || c == '"' || c == '/' || c == '\\' || c == '|' || c == '?'
        || c == '*'
}

/// Windows reserved device names: CON, PRN, AUX, NUL, COM1-COM9, LPT1-LPT9.
pub open spec fn is_reserved(u: Seq<char>) -> bool {
    ||| u == seq!['C', 'O', 'N']
    ||| u == seq!['P', 'R', 'N']
    ||| u == seq!['A', 'U', 'X']
    ||| u == seq!['N', 'U', 'L']
    ||| (u.len() == 4 && (u.take(3) == seq!['C', 'O', 'M'] || u.take(3) == seq!['L', 'P', 'T'])
        && '1' <= u[3] && u[3] <= '9')
}

fn is_reserved_chars(u: &Vec<char>) -> (res: bool)
    ensures
        res == is_reserved(u@),
{
    let three = u.len() == 3;
    if three && u[0] == 'C' && u[1] == 'O' && u[2] == 'N' {
        assert(u@ =~= seq!['C', 'O', 'N']);
        return true;
    }
    if three && u[0] == 'P' && u[1] == 'R' && u[2] == 'N' {
        assert(u@ =~= seq!['P', 'R', 'N']);
        return true;
    }
    if three && u[0] == 'A' && u[1] == 'U' && u[2] == 'X' {
        assert(u@ =~= seq!['A', 'U', 'X']);
        return true;
    }
    if three && u[0] == 'N' && u[1] == 'U' && u[2] == 'L' {
        assert(u@ =~= seq!['N', 'U', 'L']);
        return true;
    }
    if u.len() == 4 && '1' <= u[3] && u[3] <= '9' {
        if u[0] == 'C' && u[1] == 'O' && u[2] == 'M' {
            assert(u@.take(3) =~= seq!['C', 'O', 'M']);
            return true;
        }
        if u[0] == 'L' && u[1] == 'P' && u[2] == 'T' {
            assert(u@.take(3) =~= seq!['L', 'P', 'T']);
            return true;
        }
        proof {
            if u@.take(3) == seq!['C', 'O', 'M'] {
                assert(u@[0] == u@.take(3)[0]);
                assert(u@[1] == u@.take(3)[1]);
                assert(u@[2] == u@.take(3)[2]);
            }
            if u@.take(3) == seq!['L', 'P', 'T'] {
                assert(u@[0] == u@.take(3)[0]);
                assert(u@[1] == u@.take(3)[1]);
                assert(u@[2] == u@.take(3)[2]);
            }
        }
        return false;
    }
    proof {
        if u@ == seq!['C', 'O', 'N'] || u@ == seq!['P', 'R', 'N'] || u@ == seq!['A', 'U', 'X']
            || u@ == seq!['N', 'U', 'L'] {
            assert(u@[0] == u@[0] && u@[1] == u@[1] && u@[2] == u@[2]);
        }
    }
    false
}

/// `str::to_uppercase`: Unicode upper-casing (one character may become
/// several).
pub uninterp spec fn unicode_upper(s: Seq<char>) -> Seq<char>;

/// Calls `str::to_uppercase`; the result is what Unicode upper-casing gives
/// for the argument, named `unicode_upper`.
#[verifier::external_body]
fn to_uppercase(s: &str) -> (res: String)
    ensures
        res@ == unicode_upper(s@),
{
    s.to_uppercase()
}

/// One character of a sanitized name.
pub open spec fn sanitize_char(c: char) -> char {
    if is_illegal(c) {
        '_'
    } else if is_ctrl(c) {
        ' '
    } else {
        c
    }
}

/// The text before the first `'.'` (`split('.').next()`).
pub open spec fn stem(s: Seq<char>) -> Seq<char> {
    match find(s, seq!['.']) {
        Some(i) => s.take(i),
        None => s,
    }
}

/// The name before the reserved-name test: illegal characters become `_`,
/// control characters become spaces, trailing spaces and dots go, runs of
/// spaces collapse, and surrounding whitespace is trimmed.
pub open spec fn sanitize_base(input: Seq<char>) -> Seq<char> {
    let mapped = input.map_values(|c: char| sanitize_char(c));
    let cleaned = collapse(trim_end(mapped, Trim::SpaceDot), seq![' ', ' '], seq![' ']);
    trim(cleaned, Trim::Ws)
}

/// Make a string safe as a filename on Windows and macOS: the trimmed name
/// of `sanitize_base`, with a leading `_` when its part before the first dot
/// is a reserved device name. The test is made on the final, trimmed name,
/// so surrounding whitespace cannot hide a reserved name.
pub open spec fn sanitize_spec(input: Seq<char>) -> Seq<char> {
    let base = sanitize_base(input);
    if is_reserved(unicode_upper(stem(base))) {
        seq!['_'] + base
    } else {
        base
    }
}

/// Make a string safe as a filename on Windows and macOS.
pub fn sanitize(input: &str) -> (res: String)
    ensures
        res@ == sanitize_spec(input@),
{
    let cs = chars_of(input);
    let mut out: Vec<char> = Vec::new();
    let mut i: usize = 0;
    while i < cs.len()
        invariant
            i <= cs.len(),
            out@ == cs@.take(i as int).map_values(|c: char| sanitize_char(c)),
        decreases cs.len() - i,
    {
        let c = cs[i];
        let d = if is_illegal_char(c) {
            '_'
        } else if is_ctrl_char(c) {
            ' '
        } else {
            c
        };
        out.push(d);
        i += 1;
        proof {
            assert(cs@.take(i as int).map_values(|c: char| sanitize_char(c)) =~= cs@.take(
                i - 1 as int,
            ).map_values(|c: char| sanitize_char(c)).push(sanitize_char(c)));
        }
    }
    proof {
        assert(cs@.take(cs.len() as int) =~= cs@);
    }
    let trimmed = trim_end_chars(&out, Trim::SpaceDot);
    let collapsed = collapse_chars(&trimmed, &char_vec2(' ', ' '), &char_vec1(' '));
    let cleaned = trim_chars(&collapsed, Trim::Ws);
    let dot = char_vec1('.');
    let stem_chars = match find_chars(&cleaned, &dot) {
        Some(k) => {
            proof {
                lemma_find_from_props(cleaned@, dot@, 0);
                assert(find(cleaned@, dot@) == Some(k as int));
            }
            slice_chars(&cleaned, 0, k)
        },
        None => slice_chars(&cleaned, 0, cleaned.len()),
    };
    proof {
        assert(stem_chars@ =~= stem(cleaned@));
    }
    let upper = chars_of(&to_uppercase(&string_of(&stem_chars)));
    let named = if is_reserved_chars(&upper) {
        concat_chars(&char_vec1('_'), &cleaned)
    } else {
        cleaned
    };
    string_of(&named)
}

// ---------------------------------------------------------------------
// Character-preservation facts used by the laws
// ---------------------------------------------------------------------

/// Every character satisfies `p`.
pub open spec fn all_chars(s: Seq<char>, p: spec_fn(char) -> bool) -> bool {
    forall|i: int| 0 <= i < s.len() ==> #[trigger] p(s[i])
}

proof fn lemma_all_chars_sub(s: Seq<char>, p: spec_fn(char) -> bool, a: int, b: int)
    requires
        all_chars(s, p),
        0 <= a <= b <= s.len(),
    ensures
        all_chars(s.subrange(a, b), p),
{
    assert forall|i: int| 0 <= i < b - a implies #[trigger] p(s.subrange(a, b)[i]) by {
        assert(s.subrange(a, b)[i] == s[a + i]);
    }
}

proof fn lemma_all_chars_add(s: Seq<char>, t: Seq<char>, p: spec_fn(char) -> bool)
    requires
        all_chars(s, p),
        all_chars(t, p),
    ensures
        all_chars(s + t, p),
{
    assert forall|i: int| 0 <= i < (s + t).len() implies #[trigger] p((s + t)[i]) by {
        if i < s.len() {
            assert((s + t)[i] == s[i]);
        } else {
            assert((s + t)[i] == t[i - s.len()]);
        }
    }
}

proof fn lemma_all_chars_replace(
    s: Seq<char>,
    from: Seq<char>,
    to: Seq<char>,
    p: spec_fn(char) -> bool,
)
    requires
        all_chars(s, p),
        all_chars(to, p),
    ensures
        all_chars(replace_all(s, from, to), p),
    decreases s.len(),
{
    if from.len() > 0 {
        match find(s, from) {
            Some(i) => {
                lemma_find_from_props(s, from, 0);
                lemma_all_chars_sub(s, p, 0, i);
                assert(s.take(i) =~= s.subrange(0, i));
                lemma_all_chars_sub(s, p, i + from.len(), s.len() as int);
                assert(s.skip(i + from.len()) =~= s.subrange(i + from.len(), s.len() as int));
                lemma_all_chars_replace(s.skip(i + from.len()), from, to, p);
                lemma_all_chars_add(s.take(i), to, p);
                lemma_all_chars_add(
                    s.take(i) + to,
                    replace_all(s.skip(i + from.len()), from, to),
                    p,
                );
            },
            None => {},
        }
    }
}

proof fn lemma_all_chars_collapse(
    s: Seq<char>,
    pat: Seq<char>,
    rep: Seq<char>,
    p: spec_fn(char) -> bool,
)
    requires
        all_chars(s, p),
        all_chars(rep, p),
    ensures
        all_chars(collapse(s, pat, rep), p),
    decreases s.len(),
{
    if pat.len() > rep.len() && contains(s, pat) {
        lemma_replace_shrinks(s, pat, rep);
        lemma_all_chars_replace(s, pat, rep, p);
        lemma_all_chars_collapse(replace_all(s, pat, rep), pat, rep, p);
    }
}

proof fn lemma_all_chars_trim(s: Seq<char>, t: Trim, p: spec_fn(char) -> bool)
    requires
        all_chars(s, p),
    ensures
        all_chars(trim(s, t), p),
        all_chars(trim_end(s, t), p),
{
    crate::text::lemma_trim_start_first(s, t);
    let a = crate::text::trim_start(s, t);
    lemma_all_chars_sub(s, p, s.len() - a.len(), s.len() as int);
    assert(s.skip(s.len() - a.len()) =~= s.subrange(s.len() - a.len(), s.len() as int));
    crate::text::lemma_trim_end_last(a, t);
    lemma_all_chars_sub(a, p, 0, trim_end(a, t).len() as int);
    assert(a.take(trim_end(a, t).len() as int) =~= a.subrange(0, trim_end(a, t).len() as int));
    crate::text::lemma_trim_end_last(s, t);
    lemma_all_chars_sub(s, p, 0, trim_end(s, t).len() as int);
    assert(s.take(trim_end(s, t).len() as int) =~= s.subrange(0, trim_end(s, t).len() as int));
}

/// A name fit for a file: no character that Windows or macOS forbids and
/// no control character.
pub open spec fn safe_filename_char(c: char) -> bool {
    !is_illegal(c) && !is_ctrl(c)
}

/// A sanitized name holds no illegal and no control characters.
pub proof fn law_sanitize_is_safe(input: Seq<char>)
    ensures
        all_chars(sanitize_spec(input), |c: char| safe_filename_char(c)),
{
    let p = |c: char| safe_filename_char(c);
    let mapped = input.map_values(|c: char| sanitize_char(c));
    assert(all_chars(mapped, p));
    lemma_all_chars_trim(mapped, Trim::SpaceDot, p);
    let t = trim_end(mapped, Trim::SpaceDot);
    assert(all_chars(seq![' '], p));
    lemma_all_chars_collapse(t, seq![' ', ' '], seq![' '], p);
    let cleaned = collapse(t, seq![' ', ' '], seq![' ']);
    lemma_all_chars_trim(cleaned, Trim::Ws, p);
    let base = trim(cleaned, Trim::Ws);
    assert(all_chars(seq!['_'], p));
    lemma_all_chars_add(seq!['_'], base, p);
}

// ---------------------------------------------------------------------
// Legacy `{placeholder}` templates
// ---------------------------------------------------------------------

/// Replace the seven placeholders in order, then tidy the separators left
/// behind by empty fields (`" -  - "` becomes `" - "`, double spaces
/// collapse) and trim spaces and dashes at both ends.
pub open spec fn substitute_spec(template: Seq<char>, item: IndexedItem, title: Seq<char>) -> Seq<
    char,
> {
    let s1 = replace_all(template, "{primary_creator}"@, item.primary_creator@);
    let s2 = replace_all(s1, "{creators}"@, item.creators@);
    let s3 = replace_all(s2, "{year}"@, item.year@);
    let s4 = replace_all(s3, "{title}"@, title);
    let s5 = replace_all(s4, "{container_title}"@, item.container_title@);
    let s6 = replace_all(s5, "{item_key}"@, item.item_key@);
    let s7 = replace_all(s6, "{item_type}"@, item.item_type@);
    let s8 = collapse(s7, " -  - "@, " - "@);
    let s9 = collapse(s8, seq![' ', ' '], seq![' ']);
    trim(s9, Trim::SpaceDash)
}

fn replace_placeholder(s: &Vec<char>, placeholder: &str, value: &str) -> (res: Vec<char>)
    requires
        placeholder@.len() > 0,
    ensures
        res@ == replace_all(s@, placeholder@, value@),
{
    let p = chars_of(placeholder);
    let v = chars_of(value);
    replace_chars(s, &p, &v)
}

fn substitute(template: &Vec<char>, item: &IndexedItem, title: &str) -> (res: Vec<char>)
    ensures
        res@ == substitute_spec(template@, *item, title@),
{
    proof {
        reveal_strlit("{primary_creator}");
        reveal_strlit("{creators}");
        reveal_strlit("{year}");
        reveal_strlit("{title}");
        reveal_strlit("{container_title}");
        reveal_strlit("{item_key}");
        reveal_strlit("{item_type}");
        reveal_strlit(" -  - ");
        reveal_strlit(" - ");
    }
    let s1 = replace_placeholder(template, "{primary_creator}", item.primary_creator.as_str());
    let s2 = replace_placeholder(&s1, "{creators}", item.creators.as_str());
    let s3 = replace_placeholder(&s2, "{year}", item.year.as_str());
    let s4 = replace_placeholder(&s3, "{title}", title);
    let s5 = replace_placeholder(&s4, "{container_title}", item.container_title.as_str());
    let s6 = replace_placeholder(&s5, "{item_key}", item.item_key.as_str());
    let s7 = replace_placeholder(&s6, "{item_type}", item.item_type.as_str());
    let s8 = collapse_chars(&s7, &chars_of(" -  - "), &chars_of(" - "));
    let s9 = collapse_chars(&s8, &char_vec2(' ', ' '), &char_vec1(' '));
    assert(s1@ == replace_all(template@, "{primary_creator}"@, item.primary_creator@));
    assert(s7@ == replace_all(replace_all(replace_all(replace_all(replace_all(replace_all(s1@, "{creators}"@, item.creators@), "{year}"@, item.year@), "{title}"@, title@), "{container_title}"@, item.container_title@), "{item_key}"@, item.item_key@), "{item_type}"@, item.item_type@));
    assert(s8@ == collapse(s7@, " -  - "@, " - "@));
    assert(s9@ == collapse(s8@, seq![' ', ' '], seq![' ']));
    trim_chars(&s9, Trim::SpaceDash)
}

/// The template with `" -- {item_key}"` appended when it lacks `{item_key}`.
pub open spec fn keyed_template(template: Seq<char>) -> Seq<char> {
    if contains(template, "{item_key}"@) {
        template
    } else {
        template + " -- {item_key}"@
    }
}

/// Title budget when the full name is too long: what is left of the
/// length limit after the larger of the title-less name and the key tail.
pub open spec fn title_budget(head_len: int, key_len: int) -> int {
    let tail_len = 4 + key_len;
    let fixed = if head_len >= tail_len {
        head_len
    } else {
        tail_len
    };
    if MAX_BASENAME_CHARS >= fixed + 1 {
        MAX_BASENAME_CHARS - (fixed + 1)
    } else {
        0
    }
}

/// The legacy renderer: substitute, sanitize, shrink the title when the
/// name is longer than the limit, and fall back to `untitled -- <key>`.
pub open spec fn render_spec(template: Seq<char>, item: IndexedItem) -> Seq<char> {
    let t = keyed_template(template);
    let name = sanitize_spec(substitute_spec(t, item, item.title@));
    let name2 = if name.len() > MAX_BASENAME_CHARS {
        let head = substitute_spec(t, item, Seq::empty());
        let budget = title_budget(head.len() as int, item.item_key@.len() as int);
        let cut = if budget <= item.title@.len() {
            budget
        } else {
            item.title@.len() as int
        };
        let short = trim_end(item.title@.take(cut), Trim::Ws);
        sanitize_spec(substitute_spec(t, item, short))
    } else {
        name
    };
    if name2.len() == 0 {
        "untitled -- "@ + item.item_key@
    } else {
        name2
    }
}

/// Render a template like `{primary_creator} - {year} - {title} -- {item_key}`
/// into a sanitized base filename (no directory, no extension).
///
/// The `{item_key}` placeholder is mandatory: it makes every name unique
/// and stale-file cleanup reliable. A template that lacks it gets it
/// appended.
pub fn render(template: &str, item: &IndexedItem) -> (res: String)
    ensures
        res@ == render_spec(template@, *item),
{
    let mut t = chars_of(template);
    let key_ph = chars_of("{item_key}");
    if !contains_chars(&t, &key_ph) {
        push_str(&mut t, " -- {item_key}");
    }
    assert(t@ == keyed_template(template@));
    let raw = substitute(&t, item, item.title.as_str());
    let mut name = sanitize(&string_of(&raw));
    assert(name@ == sanitize_spec(substitute_spec(t@, *item, item.title@)));
    let name_chars = chars_of(&name);
    if name_chars.len() > MAX_BASENAME_CHARS {
        proof {
            reveal_strlit("");
            assert(""@ =~= Seq::<char>::empty());
        }
        let head = substitute(&t, item, "");
        let key_len = chars_of(item.item_key.as_str()).len();
        let fixed: usize = if key_len > usize::MAX - 4 {
            usize::MAX
        } else if head.len() >= 4 + key_len {
            head.len()
        } else {
            4 + key_len
        };
        let budget: usize = if fixed < MAX_BASENAME_CHARS {
            MAX_BASENAME_CHARS - (fixed + 1)
        } else {
            0
        };
        assert(budget == title_budget(head@.len() as int, item.item_key@.len() as int));
        let title = chars_of(item.title.as_str());
        let cut = if budget <= title.len() {
            budget
        } else {
            title.len()
        };
        let short = trim_end_chars(&slice_chars(&title, 0, cut), Trim::Ws);
        proof {
            assert(title@.subrange(0, cut as int) =~= item.title@.take(cut as int));
        }
        let raw2 = substitute(&t, item, &string_of(&short));
        name = sanitize(&string_of(&raw2));
        assert(head@ == substitute_spec(t@, *item, Seq::empty()));
    }
    let final_chars = chars_of(&name);
    if final_chars.len() == 0 {
        let mut v: Vec<char> = Vec::new();
        push_str(&mut v, "untitled -- ");
        push_str(&mut v, item.item_key.as_str());
        return string_of(&v);
    }
    name
}

/// The name with `" -- <key>"` appended, cut so that the whole stays
/// within the length limit, with trailing spaces and dots of the kept part
/// removed.
pub open spec fn key_suffix_spec(base: Seq<char>, item_key: Seq<char>) -> Seq<char> {
    let suffix = " -- "@ + item_key;
    let budget = if MAX_BASENAME_CHARS >= suffix.len() {
        MAX_BASENAME_CHARS - suffix.len()
    } else {
        0
    };
    let cut = if budget <= base.len() {
        budget
    } else {
        base.len() as int
    };
    trim_end(base.take(cut), Trim::SpaceDot) + suffix
}

/// Append ` -- <item_key>` to a base filename, keeping the total within
/// the length budget. Used when a rendered name collides with another
/// item's.
pub fn with_key_suffix(base: &str, item_key: &str) -> (res: String)
    ensures
        res@ == key_suffix_spec(base@, item_key@),
{
    let mut suffix: Vec<char> = Vec::new();
    push_str(&mut suffix, " -- ");
    push_str(&mut suffix, item_key);
    let budget: usize = if MAX_BASENAME_CHARS >= suffix.len() {
        MAX_BASENAME_CHARS - suffix.len()
    } else {
        0
    };
    let b = chars_of(base);
    let cut = if budget <= b.len() {
        budget
    } else {
        b.len()
    };
    let head = trim_end_chars(&slice_chars(&b, 0, cut), Trim::SpaceDot);
    proof {
        assert(b@.subrange(0, cut as int) =~= base@.take(cut as int));
    }
    string_of(&concat_chars(&head, &suffix))
}

/// The suffixed name ends with `" -- <key>"` and, for a key of at most
/// 176 characters, stays within the length limit.
pub proof fn law_key_suffix_ends_with_key(base: Seq<char>, item_key: Seq<char>)
    ensures
        crate::text::ends_with(key_suffix_spec(base, item_key), " -- "@ + item_key),
        item_key.len() + 4 <= MAX_BASENAME_CHARS ==> key_suffix_spec(base, item_key).len()
            <= MAX_BASENAME_CHARS,
{
    reveal_strlit(" -- ");
    let suffix = " -- "@ + item_key;
    let budget = if MAX_BASENAME_CHARS >= suffix.len() {
        MAX_BASENAME_CHARS - suffix.len()
    } else {
        0
    };
    let cut = if budget <= base.len() {
        budget
    } else {
        base.len() as int
    };
    let head = trim_end(base.take(cut), Trim::SpaceDot);
    crate::text::lemma_trim_end_last(base.take(cut), Trim::SpaceDot);
    let r = head + suffix;
    assert(r.skip(r.len() - suffix.len()) =~= suffix);
}

/// Renders with the syntax the template is written in: Zotero `{{...}}`
/// templates through the Zotero renderer, then sanitized, cut to the length
/// limit (trailing spaces and dots of the cut removed) and given an
/// `untitled -- <key>` fallback; any other template as `render` does.
pub open spec fn render_auto_spec(template: Seq<char>, item: IndexedItem, d: DataV) -> Seq<char> {
    if !contains(template, open_braces()) {
        render_spec(template, item)
    } else {
        let name = sanitize_spec(trim(ztemplate::render_spec(template, item, d), Trim::Ws));
        let name2 = if name.len() > MAX_BASENAME_CHARS {
            trim_end(name.take(MAX_BASENAME_CHARS as int), Trim::SpaceDot)
        } else {
            name
        };
        if name2.len() == 0 {
            "untitled -- "@ + item.item_key@
        } else {
            name2
        }
    }
}

/// `render_auto` for item data already read.
pub fn render_auto_with_data(template: &str, item: &IndexedItem, d: &TemplateData) -> (res: String)
    ensures
        res@ == render_auto_spec(template@, *item, d@),
{
    if !ztemplate::is_zotero_template(template) {
        return render(template, item);
    }
    let raw = ztemplate::render_with_data(template, item, d);
    let raw_chars = chars_of(raw.as_str());
    let trimmed = trim_chars(&raw_chars, Trim::Ws);
    let name = sanitize(string_of(trimmed.as_slice()).as_str());
    let mut v = chars_of(name.as_str());
    if v.len() > MAX_BASENAME_CHARS {
        let cut = slice_chars(&v, 0, MAX_BASENAME_CHARS);
        assert(cut@ =~= name@.take(MAX_BASENAME_CHARS as int));
        v = trim_end_chars(&cut, Trim::SpaceDot);
    }
    if v.len() == 0 {
        let mut u: Vec<char> = Vec::new();
        push_str(&mut u, "untitled -- ");
        push_str(&mut u, item.item_key.as_str());
        return string_of(u.as_slice());
    }
    string_of(v.as_slice())
}

/// Renders with automatic syntax detection: templates holding `{{` use the
/// Zotero filename template syntax; any other uses `{placeholder}`s.
/// Zotero templates are not forced to hold the item key: a collision
/// between two items is settled by appending the key to one of them.
pub fn render_auto(template: &str, item: &IndexedItem) -> (res: String)
    ensures
        res@ == render_auto_spec(
            template@,
            *item,
            ztemplate::template_data_spec(ztemplate::opt_view(item.raw_json)),
        ),
{
    let d = ztemplate::template_data(&item.raw_json);
    render_auto_with_data(template, item, &d)
}

// ---------------------------------------------------------------------
// Every legacy name carries its item key
// ---------------------------------------------------------------------

/// A character of a Zotero item key: an ASCII capital or digit.
pub open spec fn key_char(c: char) -> bool {
    ('A' <= c && c <= 'Z') || ('0' <= c && c <= '9')
}

/// The shape of a Zotero item key: not empty, capitals and digits.
pub open spec fn item_key_shape(k: Seq<char>) -> bool {
    k.len() > 0 && forall|b: int| 0 <= b < k.len() ==> key_char(#[trigger] k[b])
}

/// `k` occurs somewhere in `s`.
pub open spec fn occurs(s: Seq<char>, k: Seq<char>) -> bool {
    exists|m: int| matches_at(s, k, m)
}

/// Every match of `p` in `s` lies clear of the occurrence of `k` at `m`.
spec fn clear_of(s: Seq<char>, p: Seq<char>, k: Seq<char>, m: int) -> bool {
    forall|i: int| #[trigger] matches_at(s, p, i) ==> i + p.len() <= m || m + k.len() <= i
}

spec fn no_key_chars(p: Seq<char>) -> bool {
    forall|a: int| 0 <= a < p.len() ==> !key_char(#[trigger] p[a])
}

/// `{`, then a word with no other `{`.
spec fn brace_word(p: Seq<char>) -> bool {
    &&& p.len() >= 2
    &&& p[0] == '{'
    &&& forall|a: int| 1 <= a < p.len() ==> #[trigger] p[a] != '{'
}

proof fn lemma_replace_keeps(s: Seq<char>, p: Seq<char>, v: Seq<char>, k: Seq<char>, m: int)
    requires
        p.len() > 0,
        matches_at(s, k, m),
        clear_of(s, p, k, m),
    ensures
        occurs(replace_all(s, p, v), k),
    decreases s.len(),
{
    match find(s, p) {
        None => {
            assert(matches_at(replace_all(s, p, v), k, m));
        },
        Some(i) => {
            lemma_find_from_props(s, p, 0);
            assert(matches_at(s, p, i));
            let off = i + p.len();
            let r = s.skip(off);
            let rest = replace_all(r, p, v);
            let out = replace_all(s, p, v);
            assert(out == s.take(i) + v + rest);
            if m + k.len() <= i {
                assert(out.subrange(m, m + k.len()) =~= s.subrange(m, m + k.len()));
                assert(matches_at(out, k, m));
            } else {
                assert(off <= m);
                let m1 = m - off;
                assert(r.subrange(m1, m1 + k.len()) =~= s.subrange(m, m + k.len()));
                assert(matches_at(r, k, m1));
                assert forall|j: int| #[trigger] matches_at(r, p, j) implies j + p.len() <= m1 || m1
                    + k.len() <= j by {
                    assert(s.subrange(j + off, j + off + p.len()) =~= r.subrange(j, j + p.len()));
                    assert(matches_at(s, p, j + off));
                }
                lemma_replace_keeps(r, p, v, k, m1);
                let m2 = choose|m2: int| matches_at(rest, k, m2);
                let w = i + v.len() + m2;
                assert(out.subrange(w, w + k.len()) =~= rest.subrange(m2, m2 + k.len()));
                assert(matches_at(out, k, w));
            }
        },
    }
}

proof fn lemma_replace_inserts(s: Seq<char>, p: Seq<char>, v: Seq<char>, m: int)
    requires
        p.len() > 0,
        matches_at(s, p, m),
    ensures
        occurs(replace_all(s, p, v), v),
{
    lemma_find_from_le(s, p, 0, m);
    lemma_find_from_props(s, p, 0);
    let i = find(s, p)->0;
    let out = replace_all(s, p, v);
    assert(out.subrange(i, i + v.len()) =~= v);
    assert(matches_at(out, v, i));
}

proof fn lemma_clear_disjoint(s: Seq<char>, p: Seq<char>, k: Seq<char>, m: int)
    requires
        p.len() > 0,
        matches_at(s, k, m),
        no_key_chars(p),
        item_key_shape(k),
    ensures
        clear_of(s, p, k, m),
{
    assert forall|i: int| #[trigger] matches_at(s, p, i) implies i + p.len() <= m || m + k.len()
        <= i by {
        if !(i + p.len() <= m || m + k.len() <= i) {
            let j = if i < m {
                m
            } else {
                i
            };
            assert(s.subrange(i, i + p.len())[j - i] == s[j]);
            assert(s.subrange(m, m + k.len())[j - m] == s[j]);
            assert(key_char(k[j - m]));
            assert(!key_char(p[j - i]));
        }
    }
}

proof fn lemma_clear_braces(s: Seq<char>, p: Seq<char>, q: Seq<char>, m: int)
    requires
        matches_at(s, q, m),
        brace_word(p),
        brace_word(q),
        p[1] != q[1],
    ensures
        clear_of(s, p, q, m),
{
    assert forall|i: int| #[trigger] matches_at(s, p, i) implies i + p.len() <= m || m + q.len()
        <= i by {
        if !(i + p.len() <= m || m + q.len() <= i) {
            if i < m {
                assert(s.subrange(m, m + q.len())[0] == s[m]);
                assert(s.subrange(i, i + p.len())[m - i] == s[m]);
                assert(p[m - i] != '{');
            } else if m < i {
                assert(s.subrange(i, i + p.len())[0] == s[i]);
                assert(s.subrange(m, m + q.len())[i - m] == s[i]);
                assert(q[i - m] != '{');
            } else {
                assert(s.subrange(i, i + p.len())[1] == s[i + 1]);
                assert(s.subrange(m, m + q.len())[1] == s[i + 1]);
            }
        }
    }
}

proof fn lemma_collapse_keeps(s: Seq<char>, pat: Seq<char>, rep: Seq<char>, k: Seq<char>, m: int)
    requires
        pat.len() > rep.len(),
        matches_at(s, k, m),
        no_key_chars(pat),
        item_key_shape(k),
    ensures
        occurs(collapse(s, pat, rep), k),
    decreases s.len(),
{
    if contains(s, pat) {
        lemma_replace_shrinks(s, pat, rep);
        lemma_clear_disjoint(s, pat, k, m);
        lemma_replace_keeps(s, pat, rep, k, m);
        let r = replace_all(s, pat, rep);
        let m2 = choose|m2: int| matches_at(r, k, m2);
        lemma_collapse_keeps(r, pat, rep, k, m2);
    } else {
        assert(matches_at(collapse(s, pat, rep), k, m));
    }
}

proof fn lemma_trim_start_keeps(s: Seq<char>, t: Trim, k: Seq<char>, m: int)
    requires
        matches_at(s, k, m),
        k.len() > 0,
        !in_trim(t, k[0]),
    ensures
        occurs(trim_start(s, t), k),
    decreases s.len(),
{
    if s.len() > 0 && in_trim(t, s[0]) {
        assert(s.subrange(m, m + k.len())[0] == s[m]);
        assert(m > 0);
        let r = s.drop_first();
        assert(r.subrange(m - 1, m - 1 + k.len()) =~= s.subrange(m, m + k.len()));
        lemma_trim_start_keeps(r, t, k, m - 1);
    } else {
        assert(matches_at(trim_start(s, t), k, m));
    }
}

proof fn lemma_trim_end_keeps(s: Seq<char>, t: Trim, k: Seq<char>, m: int)
    requires
        matches_at(s, k, m),
        k.len() > 0,
        !in_trim(t, k[k.len() - 1]),
    ensures
        occurs(trim_end(s, t), k),
    decreases s.len(),
{
    if s.len() > 0 && in_trim(t, s.last()) {
        let e = m + k.len() - 1;
        assert(s.subrange(m, m + k.len())[k.len() - 1] == s[e]);
        assert(e != s.len() - 1);
        let r = s.drop_last();
        assert(r.subrange(m, m + k.len()) =~= s.subrange(m, m + k.len()));
        lemma_trim_end_keeps(r, t, k, m);
    } else {
        assert(matches_at(trim_end(s, t), k, m));
    }
}

proof fn lemma_trim_keeps(s: Seq<char>, t: Trim, k: Seq<char>, m: int)
    requires
        matches_at(s, k, m),
        item_key_shape(k),
        forall|c: char| key_char(c) ==> !in_trim(t, c),
    ensures
        occurs(trim(s, t), k),
{
    assert(key_char(k[0]));
    assert(key_char(k[k.len() - 1]));
    lemma_trim_start_keeps(s, t, k, m);
    let ts = trim_start(s, t);
    let m1 = choose|m1: int| matches_at(ts, k, m1);
    lemma_trim_end_keeps(ts, t, k, m1);
}

proof fn lemma_key_chars_not_trimmed()
    ensures
        forall|c: char| key_char(c) ==> !in_trim(Trim::Ws, c),
        forall|c: char| key_char(c) ==> !in_trim(Trim::SpaceDot, c),
        forall|c: char| key_char(c) ==> !in_trim(Trim::SpaceDash, c),
        forall|c: char| key_char(c) ==> sanitize_char(c) == c,
{
}

proof fn lemma_sanitize_keeps(input: Seq<char>, k: Seq<char>, m: int)
    requires
        matches_at(input, k, m),
        item_key_shape(k),
    ensures
        occurs(sanitize_spec(input), k),
{
    lemma_key_chars_not_trimmed();
    let mapped = input.map_values(|c: char| sanitize_char(c));
    assert(mapped.subrange(m, m + k.len()) =~= k) by {
        assert forall|b: int| 0 <= b < k.len() implies mapped.subrange(m, m + k.len())[b]
            == k[b] by {
            assert(input.subrange(m, m + k.len())[b] == input[m + b]);
            assert(key_char(k[b]));
        }
    }
    assert(matches_at(mapped, k, m));
    assert(key_char(k[k.len() - 1]));
    lemma_trim_end_keeps(mapped, Trim::SpaceDot, k, m);
    let te = trim_end(mapped, Trim::SpaceDot);
    let m1 = choose|m1: int| matches_at(te, k, m1);
    assert(no_key_chars(seq![' ', ' ']));
    lemma_collapse_keeps(te, seq![' ', ' '], seq![' '], k, m1);
    let cleaned = collapse(te, seq![' ', ' '], seq![' ']);
    let m2 = choose|m2: int| matches_at(cleaned, k, m2);
    lemma_trim_keeps(cleaned, Trim::Ws, k, m2);
    let base = trim(cleaned, Trim::Ws);
    let m3 = choose|m3: int| matches_at(base, k, m3);
    if is_reserved(unicode_upper(stem(base))) {
        let named = seq!['_'] + base;
        assert(named.subrange(m3 + 1, m3 + 1 + k.len()) =~= base.subrange(m3, m3 + k.len()));
        assert(matches_at(named, k, m3 + 1));
    }
}

proof fn lemma_substitute_keeps(t: Seq<char>, item: IndexedItem, title: Seq<char>, m: int)
    requires
        matches_at(t, "{item_key}"@, m),
        item_key_shape(item.item_key@),
    ensures
        occurs(substitute_spec(t, item, title), item.item_key@),
{
    reveal_strlit("{primary_creator}");
    reveal_strlit("{creators}");
    reveal_strlit("{year}");
    reveal_strlit("{title}");
    reveal_strlit("{container_title}");
    reveal_strlit("{item_key}");
    reveal_strlit("{item_type}");
    reveal_strlit(" -  - ");
    reveal_strlit(" - ");
    let q = "{item_key}"@;
    let k = item.item_key@;
    assert(brace_word(q));
    assert(brace_word("{primary_creator}"@));
    assert(brace_word("{creators}"@));
    assert(brace_word("{year}"@));
    assert(brace_word("{title}"@));
    assert(brace_word("{container_title}"@));
    lemma_clear_braces(t, "{primary_creator}"@, q, m);
    lemma_replace_keeps(t, "{primary_creator}"@, item.primary_creator@, q, m);
    let s1 = replace_all(t, "{primary_creator}"@, item.primary_creator@);
    let m1 = choose|x: int| matches_at(s1, q, x);
    lemma_clear_braces(s1, "{creators}"@, q, m1);
    lemma_replace_keeps(s1, "{creators}"@, item.creators@, q, m1);
    let s2 = replace_all(s1, "{creators}"@, item.creators@);
    let m2 = choose|x: int| matches_at(s2, q, x);
    lemma_clear_braces(s2, "{year}"@, q, m2);
    lemma_replace_keeps(s2, "{year}"@, item.year@, q, m2);
    let s3 = replace_all(s2, "{year}"@, item.year@);
    let m3 = choose|x: int| matches_at(s3, q, x);
    lemma_clear_braces(s3, "{title}"@, q, m3);
    lemma_replace_keeps(s3, "{title}"@, title, q, m3);
    let s4 = replace_all(s3, "{title}"@, title);
    let m4 = choose|x: int| matches_at(s4, q, x);
    lemma_clear_braces(s4, "{container_title}"@, q, m4);
    lemma_replace_keeps(s4, "{container_title}"@, item.container_title@, q, m4);
    let s5 = replace_all(s4, "{container_title}"@, item.container_title@);
    let m5 = choose|x: int| matches_at(s5, q, x);
    lemma_replace_inserts(s5, q, k, m5);
    let s6 = replace_all(s5, q, k);
    let m6 = choose|x: int| matches_at(s6, k, x);
    assert(no_key_chars("{item_type}"@));
    lemma_clear_disjoint(s6, "{item_type}"@, k, m6);
    lemma_replace_keeps(s6, "{item_type}"@, item.item_type@, k, m6);
    let s7 = replace_all(s6, "{item_type}"@, item.item_type@);
    let m7 = choose|x: int| matches_at(s7, k, x);
    assert(no_key_chars(" -  - "@));
    lemma_collapse_keeps(s7, " -  - "@, " - "@, k, m7);
    let s8 = collapse(s7, " -  - "@, " - "@);
    let m8 = choose|x: int| matches_at(s8, k, x);
    assert(no_key_chars(seq![' ', ' ']));
    lemma_collapse_keeps(s8, seq![' ', ' '], seq![' '], k, m8);
    let s9 = collapse(s8, seq![' ', ' '], seq![' ']);
    let m9 = choose|x: int| matches_at(s9, k, x);
    lemma_key_chars_not_trimmed();
    lemma_trim_keeps(s9, Trim::SpaceDash, k, m9);
}

/// The key placeholder is mandatory: whatever the template, a name that the
/// legacy renderer produces for an item with a Zotero-shaped key holds that
/// key, which is what makes names unique and stale files recognisable.
pub proof fn law_rendered_name_holds_key(template: Seq<char>, item: IndexedItem)
    requires
        item_key_shape(item.item_key@),
    ensures
        contains(render_spec(template, item), item.item_key@),
{
    reveal_strlit("{item_key}");
    reveal_strlit(" -- {item_key}");
    let q = "{item_key}"@;
    let k = item.item_key@;
    let t = keyed_template(template);
    let mq: int = if contains(template, q) {
        lemma_find_from_props(template, q, 0);
        find(template, q)->0
    } else {
        let w: int = template.len() as int + 4;
        assert(t.subrange(w, w + q.len()) =~= q);
        w
    };
    assert(matches_at(t, q, mq));
    lemma_substitute_keeps(t, item, item.title@, mq);
    let sub = substitute_spec(t, item, item.title@);
    let ma = choose|x: int| matches_at(sub, k, x);
    lemma_sanitize_keeps(sub, k, ma);
    let name = sanitize_spec(sub);
    let head = substitute_spec(t, item, Seq::empty());
    let budget = title_budget(head.len() as int, k.len() as int);
    let cut = if budget <= item.title@.len() {
        budget
    } else {
        item.title@.len() as int
    };
    let short = trim_end(item.title@.take(cut), Trim::Ws);
    lemma_substitute_keeps(t, item, short, mq);
    let sub2 = substitute_spec(t, item, short);
    let mb = choose|x: int| matches_at(sub2, k, x);
    lemma_sanitize_keeps(sub2, k, mb);
    let name2 = if name.len() > MAX_BASENAME_CHARS {
        sanitize_spec(sub2)
    } else {
        name
    };
    let mc = choose|x: int| matches_at(name2, k, x);
    assert(name2.len() > 0);
    assert(render_spec(template, item) == name2);
    lemma_find_from_le(name2, k, 0, mc);
}

/// A template without the key placeholder renders exactly as the same
/// template with ` -- {item_key}` appended.
pub proof fn law_missing_key_is_appended(template: Seq<char>, item: IndexedItem)
    requires
        !contains(template, "{item_key}"@),
    ensures
        render_spec(template, item) == render_spec(template + " -- {item_key}"@, item),
{
    reveal_strlit("{item_key}");
    reveal_strlit(" -- {item_key}");
    let q = "{item_key}"@;
    let t = template + " -- {item_key}"@;
    let w: int = template.len() as int + 4;
    assert(t.subrange(w, w + q.len()) =~= q);
    assert(matches_at(t, q, w));
    lemma_find_from_le(t, q, 0, w);
    assert(keyed_template(t) == keyed_template(template));
}

/// A name renders the same for an item whatever mirror name it has stored.
pub proof fn lemma_render_auto_ignores_stored_name(
    template: Seq<char>,
    item: IndexedItem,
    stored: Option<String>,
    d: DataV,
)
    ensures
        render_auto_spec(template, item, d) == render_auto_spec(
            template,
            IndexedItem { mirror_filename: stored, ..item },
            d,
        ),
{
    ztemplate::lemma_render_ignores_stored_name(template, item, stored, d);
}

/// The `untitled -- <key>` fallback is a safe name for a safe key.
proof fn lemma_untitled_is_safe(key: Seq<char>)
    requires
        all_chars(key, |c: char| safe_filename_char(c)),
    ensures
        all_chars("untitled -- "@ + key, |c: char| safe_filename_char(c)),
{
    reveal_strlit("untitled -- ");
    let p = |c: char| safe_filename_char(c);
    assert(all_chars("untitled -- "@, p));
    lemma_all_chars_add("untitled -- "@, key, p);
}

/// Whatever the template, the legacy renderer gives a non-empty name with no
/// illegal and no control character, for any key without such characters.
pub proof fn law_rendered_name_is_safe(template: Seq<char>, item: IndexedItem)
    requires
        all_chars(item.item_key@, |c: char| safe_filename_char(c)),
    ensures
        render_spec(template, item).len() > 0,
        all_chars(render_spec(template, item), |c: char| safe_filename_char(c)),
{
    reveal_strlit("untitled -- ");
    let t = keyed_template(template);
    law_sanitize_is_safe(substitute_spec(t, item, item.title@));
    let head = substitute_spec(t, item, Seq::empty());
    let budget = title_budget(head.len() as int, item.item_key@.len() as int);
    let cut = if budget <= item.title@.len() {
        budget
    } else {
        item.title@.len() as int
    };
    let short = trim_end(item.title@.take(cut), Trim::Ws);
    law_sanitize_is_safe(substitute_spec(t, item, short));
    lemma_untitled_is_safe(item.item_key@);
}

/// Whatever the template and the item's stored data, the name a mirror
/// file gets is non-empty and holds no illegal and no control character,
/// for any key without such characters.
pub proof fn law_auto_name_is_safe(template: Seq<char>, item: IndexedItem, d: DataV)
    requires
        all_chars(item.item_key@, |c: char| safe_filename_char(c)),
    ensures
        render_auto_spec(template, item, d).len() > 0,
        all_chars(render_auto_spec(template, item, d), |c: char| safe_filename_char(c)),
{
    reveal_strlit("untitled -- ");
    if !contains(template, open_braces()) {
        law_rendered_name_is_safe(template, item);
    } else {
        let p = |c: char| safe_filename_char(c);
        let name = sanitize_spec(trim(ztemplate::render_spec(template, item, d), Trim::Ws));
        law_sanitize_is_safe(trim(ztemplate::render_spec(template, item, d), Trim::Ws));
        if name.len() > MAX_BASENAME_CHARS {
            let m = MAX_BASENAME_CHARS as int;
            lemma_all_chars_sub(name, p, 0, m);
            assert(name.take(m) =~= name.subrange(0, m));
            lemma_all_chars_trim(name.take(m), Trim::SpaceDot, p);
        }
        lemma_untitled_is_safe(item.item_key@);
    }
}

} // verus!
