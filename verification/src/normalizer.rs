//! Normalization of raw Zotero items into indexed records.

use crate::dto::{trashed, Creator, ItemData, TagEntry, ZoteroItem};
use crate::models::{build_select_uri, select_uri, IndexedItem, RemoteLibrary};
use crate::text::{
    ascii_lower_chars, chars_eq, chars_of, is_ctrl, is_ctrl_char, join, join_chars, lower_seq,
    push_all, push_str, string_of, words, words_of,
};
use sha2::Digest;
use unicode_normalization::UnicodeNormalization;
use vstd::prelude::*;
use vstd::utf8::encode_utf8;

verus! {

// ---------------------------------------------------------------------
// Outside computations
// ---------------------------------------------------------------------

/// The Unicode NFKC normal form of `s`.
pub uninterp spec fn nfkc(s: Seq<char>) -> Seq<char>;

/// `UnicodeNormalization::nfkc` from unicode-normalization, collected into
/// a `String`; the contract names the result.
#[verifier::external_body]
fn nfkc_string(s: &str) -> (res: String)
    ensures
        res@ == nfkc(s@),
{
    s.nfkc().collect()
}

/// The text of the leftmost-first match of `pattern` in `text`; `None`
/// when there is none or the pattern does not compile.
pub uninterp spec fn regex_first_match(text: Seq<char>, pattern: Seq<char>) -> Option<Seq<char>>;

/// `regex::Regex::new(pattern)` and `Regex::find(text)`, the match taken as
/// text; the contract names the result.
#[verifier::external_body]
fn regex_find(text: &str, pattern: &str) -> (res: Option<String>)
    ensures
        match res {
            Some(m) => regex_first_match(text@, pattern@) == Some(m@),
            None => regex_first_match(text@, pattern@) is None,
        },
{
    let re = regex::Regex::new(pattern).ok()?;
    re.find(text).map(|m| m.as_str().to_string())
}

/// The SHA-256 digest of `bytes`.
pub uninterp spec fn sha256(bytes: Seq<u8>) -> Seq<u8>;

/// `sha2::Sha256::digest`: the 32-byte digest of `bytes`.
#[verifier::external_body]
fn sha256_digest(bytes: &[u8]) -> (res: Vec<u8>)
    ensures
        res@ == sha256(bytes@),
        res@.len() == 32,
{
    sha2::Sha256::digest(bytes).to_vec()
}

// ---------------------------------------------------------------------
// Text cleaning
// ---------------------------------------------------------------------

/// Control characters become spaces.
pub open spec fn blank_controls(s: Seq<char>) -> Seq<char> {
    s.map_values(
        |c: char|
            if is_ctrl(c) {
                ' '
            } else {
                c
            },
    )
}

/// Unicode NFKC, control characters as spaces, whitespace runs collapsed
/// to single spaces, no leading or trailing whitespace.
pub open spec fn clean(s: Seq<char>) -> Seq<char> {
    join(words(blank_controls(nfkc(s))), seq![' '])
}

/// Unicode NFKC + control-character removal + whitespace collapsing.
pub fn clean_text(input: &str) -> (res: String)
    ensures
        res@ == clean(input@),
{
    let v = clean_chars(input);
    string_of(v.as_slice())
}

fn clean_chars(input: &str) -> (res: Vec<char>)
    ensures
        res@ == clean(input@),
{
    let n = nfkc_string(input);
    let cs = chars_of(n.as_str());
    let mut mapped: Vec<char> = Vec::new();
    let mut i: usize = 0;
    while i < cs.len()
        invariant
            i <= cs.len(),
            mapped@ == blank_controls(cs@.take(i as int)),
        decreases cs.len() - i,
    {
        let c = cs[i];
        if is_ctrl_char(c) {
            mapped.push(' ');
        } else {
            mapped.push(c);
        }
        assert(cs@.take(i + 1) =~= cs@.take(i as int).push(c));
        assert(mapped@ =~= blank_controls(cs@.take(i + 1)));
        i += 1;
    }
    assert(cs@.take(cs.len() as int) =~= cs@);
    let ws = words_of(&mapped);
    let sp = crate::text::char_vec1(' ');
    join_chars(&ws, &sp)
}

// ---------------------------------------------------------------------
// Creators
// ---------------------------------------------------------------------

/// One creator for display: the single-field name when there is one,
/// else `"Last, First"`, or whichever of the two is not empty.
pub open spec fn creator_text(c: Creator) -> Seq<char> {
    if c.name@.len() > 0 {
        clean(c.name@)
    } else {
        let last = clean(c.last_name@);
        let first = clean(c.first_name@);
        if last.len() > 0 && first.len() > 0 {
            last + ", "@ + first
        } else {
            last + first
        }
    }
}

/// One creator rendered for display, e.g. "Wang, Wei" or an institution name.
pub fn format_creator(c: &Creator) -> (res: String)
    ensures
        res@ == creator_text(*c),
{
    let v = creator_chars(c);
    string_of(v.as_slice())
}

fn creator_chars(c: &Creator) -> (res: Vec<char>)
    ensures
        res@ == creator_text(*c),
{
    let name = chars_of(c.name.as_str());
    if name.len() > 0 {
        return clean_chars(c.name.as_str());
    }
    let last = clean_chars(c.last_name.as_str());
    let first = clean_chars(c.first_name.as_str());
    if last.len() > 0 && first.len() > 0 {
        let mut out = last;
        push_str(&mut out, ", ");
        push_all(&mut out, &first);
        out
    } else {
        let mut out = last;
        push_all(&mut out, &first);
        out
    }
}

/// The non-empty display names of `cs`, in order.
pub open spec fn creator_texts(cs: Seq<Creator>) -> Seq<Seq<char>>
    decreases cs.len(),
{
    if cs.len() == 0 {
        Seq::empty()
    } else {
        let rest = creator_texts(cs.drop_last());
        if creator_text(cs.last()).len() > 0 {
            rest.push(creator_text(cs.last()))
        } else {
            rest
        }
    }
}

/// All creators joined with "; ".
pub fn format_creators(creators: &Vec<Creator>) -> (res: String)
    ensures
        res@ == join(creator_texts(creators@), "; "@),
{
    let mut names: Vec<Vec<char>> = Vec::new();
    let mut i: usize = 0;
    while i < creators.len()
        invariant
            i <= creators.len(),
            names@.map_values(|n: Vec<char>| n@) == creator_texts(creators@.take(i as int)),
        decreases creators.len() - i,
    {
        let n = creator_chars(&creators[i]);
        proof {
            assert(creators@.take(i + 1).drop_last() =~= creators@.take(i as int));
            assert(creators@.take(i + 1).last() == creators@[i as int]);
        }
        if n.len() > 0 {
            let ghost before = names@;
            names.push(n);
            assert(names@.map_values(|n: Vec<char>| n@) =~= before.map_values(|n: Vec<char>| n@).push(
                n@,
            ));
        }
        i += 1;
    }
    assert(creators@.take(creators.len() as int) =~= creators@);
    let sep = chars_of("; ");
    let v = join_chars(&names, &sep);
    string_of(v.as_slice())
}

/// The first creator whose type equals `t` ignoring ASCII case.
pub open spec fn first_of_type(cs: Seq<Creator>, t: Seq<char>) -> Option<Creator>
    decreases cs.len(),
{
    if cs.len() == 0 {
        None
    } else if lower_seq(cs[0].creator_type@) == lower_seq(t) {
        Some(cs[0])
    } else {
        first_of_type(cs.drop_first(), t)
    }
}

/// The display name of a creator, where it is not empty.
pub open spec fn shown(c: Option<Creator>) -> Option<Seq<char>> {
    match c {
        Some(c) => if creator_text(c).len() > 0 {
            Some(creator_text(c))
        } else {
            None
        },
        None => None,
    }
}

/// First author, else first editor, else first creator (each only when
/// its display name is not empty), else "无作者".
pub open spec fn primary_creator(cs: Seq<Creator>) -> Seq<char> {
    match shown(first_of_type(cs, "author"@)) {
        Some(n) => n,
        None => match shown(first_of_type(cs, "editor"@)) {
            Some(n) => n,
            None => match shown(
                if cs.len() > 0 {
                    Some(cs[0])
                } else {
                    None
                },
            ) {
                Some(n) => n,
                None => "无作者"@,
            },
        },
    }
}

fn shown_of_type(creators: &Vec<Creator>, t: &str) -> (res: Option<Vec<char>>)
    ensures
        match res {
            Some(v) => shown(first_of_type(creators@, t@)) == Some(v@),
            None => shown(first_of_type(creators@, t@)) is None,
        },
{
    let tv = chars_of(t);
    let tl = ascii_lower_chars(&tv);
    let mut i: usize = 0;
    assert(creators@.skip(0) =~= creators@);
    while i < creators.len()
        invariant
            i <= creators.len(),
            tl@ == lower_seq(t@),
            first_of_type(creators@, t@) == first_of_type(creators@.skip(i as int), t@),
        decreases creators.len() - i,
    {
        let ct = chars_of(creators[i].creator_type.as_str());
        let cl = ascii_lower_chars(&ct);
        assert(creators@.skip(i as int)[0] == creators@[i as int]);
        assert(creators@.skip(i as int).drop_first() =~= creators@.skip(i + 1));
        if chars_eq(&cl, &tl) {
            let n = creator_chars(&creators[i]);
            if n.len() > 0 {
                return Some(n);
            }
            return None;
        }
        i += 1;
    }
    None
}

/// Primary creator: first author, else first editor, else first creator,
/// else "无作者".
pub fn pick_primary_creator(creators: &Vec<Creator>) -> (res: String)
    ensures
        res@ == primary_creator(creators@),
{
    if let Some(n) = shown_of_type(creators, "author") {
        return string_of(n.as_slice());
    }
    if let Some(n) = shown_of_type(creators, "editor") {
        return string_of(n.as_slice());
    }
    if creators.len() > 0 {
        let n = creator_chars(&creators[0]);
        if n.len() > 0 {
            return string_of(n.as_slice());
        }
    }
    "无作者".to_string()
}

// ---------------------------------------------------------------------
// Year, container, hash
// ---------------------------------------------------------------------

/// A year from 1500 to 2199 standing as a whole word.
pub const YEAR_PATTERN: &'static str = "\\b(1[5-9]\\d{2}|20\\d{2}|21\\d{2})\\b";

/// First plausible 4-digit year in a free-form date string.
pub fn extract_year(date: &str) -> (res: String)
    ensures
        res@ == (match regex_first_match(date@, YEAR_PATTERN@) {
            Some(m) => m,
            None => Seq::empty(),
        }),
{
    match regex_find(date, YEAR_PATTERN) {
        Some(m) => m,
        None => String::new(),
    }
}

/// The first non-empty value among `vals`.
pub open spec fn first_nonempty(vals: Seq<Seq<char>>) -> Seq<char>
    decreases vals.len(),
{
    if vals.len() == 0 {
        Seq::empty()
    } else if vals[0].len() > 0 {
        vals[0]
    } else {
        first_nonempty(vals.drop_first())
    }
}

/// The publication-related fields in priority order.
pub open spec fn container_candidates(d: ItemData) -> Seq<Seq<char>> {
    seq![
        clean(d.publication_title@),
        clean(d.book_title@),
        clean(d.proceedings_title@),
        clean(d.encyclopedia_title@),
        clean(d.dictionary_title@),
        clean(d.university@),
        clean(d.institution@),
        clean(d.publisher@),
    ]
}

/// Merge the publication-related fields by priority.
pub fn container_title(data: &ItemData) -> (res: String)
    ensures
        res@ == first_nonempty(container_candidates(*data)),
{
    let v = container_chars(data);
    string_of(v.as_slice())
}

fn container_chars(data: &ItemData) -> (res: Vec<char>)
    ensures
        res@ == first_nonempty(container_candidates(*data)),
{
    let ghost c = container_candidates(*data);
    proof {
        reveal_with_fuel(first_nonempty, 9);
        assert(c.drop_first() =~= c.subrange(1, 8));
        assert(c.subrange(1, 8).drop_first() =~= c.subrange(2, 8));
        assert(c.subrange(2, 8).drop_first() =~= c.subrange(3, 8));
        assert(c.subrange(3, 8).drop_first() =~= c.subrange(4, 8));
        assert(c.subrange(4, 8).drop_first() =~= c.subrange(5, 8));
        assert(c.subrange(5, 8).drop_first() =~= c.subrange(6, 8));
        assert(c.subrange(6, 8).drop_first() =~= c.subrange(7, 8));
        assert(c.subrange(7, 8).drop_first() =~= Seq::<Seq<char>>::empty());
    }
    let a = clean_chars(data.publication_title.as_str());
    if a.len() > 0 {
        return a;
    }
    let a = clean_chars(data.book_title.as_str());
    if a.len() > 0 {
        return a;
    }
    let a = clean_chars(data.proceedings_title.as_str());
    if a.len() > 0 {
        return a;
    }
    let a = clean_chars(data.encyclopedia_title.as_str());
    if a.len() > 0 {
        return a;
    }
    let a = clean_chars(data.dictionary_title.as_str());
    if a.len() > 0 {
        return a;
    }
    let a = clean_chars(data.university.as_str());
    if a.len() > 0 {
        return a;
    }
    let a = clean_chars(data.institution.as_str());
    if a.len() > 0 {
        return a;
    }
    let a = clean_chars(data.publisher.as_str());
    if a.len() > 0 {
        return a;
    }
    Vec::new()
}

/// A field's UTF-8 bytes followed by the unit separator `0x1f`.
pub open spec fn field_bytes(s: Seq<char>) -> Seq<u8> {
    encode_utf8(s) + seq![0x1fu8]
}

/// The bytes that the content hash covers: the searchable fields in order.
pub open spec fn hashed_fields(
    title: Seq<char>,
    creators: Seq<char>,
    primary_creator: Seq<char>,
    year: Seq<char>,
    container_title: Seq<char>,
    tags: Seq<char>,
    abstract_note: Seq<char>,
    extra: Seq<char>,
    item_type: Seq<char>,
) -> Seq<u8> {
    field_bytes(title) + field_bytes(creators) + field_bytes(primary_creator) + field_bytes(year)
        + field_bytes(container_title) + field_bytes(tags) + field_bytes(abstract_note)
        + field_bytes(extra) + field_bytes(item_type)
}

/// The bytes that the content hash of an item covers.
pub open spec fn hashed_bytes(item: IndexedItem) -> Seq<u8> {
    hashed_fields(
        item.title@,
        item.creators@,
        item.primary_creator@,
        item.year@,
        item.container_title@,
        item.tags@,
        item.abstract_note@,
        item.extra@,
        item.item_type@,
    )
}

/// The lowercase hexadecimal digit of `n < 16`.
pub open spec fn hex_digit(n: int) -> char {
    if n < 10 {
        (48 + n) as char
    } else {
        (87 + n) as char
    }
}

/// Two lowercase hexadecimal digits per byte.
pub open spec fn hex(bytes: Seq<u8>) -> Seq<char>
    decreases bytes.len(),
{
    if bytes.len() == 0 {
        Seq::empty()
    } else {
        hex(bytes.drop_last()) + seq![
            hex_digit(bytes.last() as int / 16),
            hex_digit(bytes.last() as int % 16),
        ]
    }
}

fn hex_digit_char(n: u8) -> (res: char)
    requires
        n < 16,
    ensures
        res == hex_digit(n as int),
{
    if n < 10 {
        (48 + n) as char
    } else {
        (87 + n) as char
    }
}

fn push_field_bytes(out: &mut Vec<u8>, s: &str)
    ensures
        final(out)@ == old(out)@ + field_bytes(s@),
{
    let b = s.as_bytes();
    let mut i: usize = 0;
    let ghost start = out@;
    while i < b.len()
        invariant
            i <= b.len(),
            b@ == encode_utf8(s@),
            out@ == start + b@.take(i as int),
        decreases b.len() - i,
    {
        out.push(b[i]);
        assert(b@.take(i + 1) =~= b@.take(i as int).push(b@[i as int]));
        i += 1;
    }
    out.push(0x1f);
    assert(b@.take(b.len() as int) =~= b@);
    assert(out@ =~= start + (encode_utf8(s@) + seq![0x1fu8]));
}

/// Hash of the normalized searchable fields; used to skip no-op updates.
pub fn content_hash(item: &IndexedItem) -> (res: String)
    ensures
        res@ == hex(sha256(hashed_bytes(*item))),
{
    let mut bytes: Vec<u8> = Vec::new();
    push_field_bytes(&mut bytes, item.title.as_str());
    push_field_bytes(&mut bytes, item.creators.as_str());
    push_field_bytes(&mut bytes, item.primary_creator.as_str());
    push_field_bytes(&mut bytes, item.year.as_str());
    push_field_bytes(&mut bytes, item.container_title.as_str());
    push_field_bytes(&mut bytes, item.tags.as_str());
    push_field_bytes(&mut bytes, item.abstract_note.as_str());
    push_field_bytes(&mut bytes, item.extra.as_str());
    push_field_bytes(&mut bytes, item.item_type.as_str());
    assert(bytes@ =~= hashed_bytes(*item));
    let digest = sha256_digest(bytes.as_slice());
    let mut out: Vec<char> = Vec::new();
    let mut i: usize = 0;
    while i < digest.len()
        invariant
            i <= digest.len(),
            out@ == hex(digest@.take(i as int)),
        decreases digest.len() - i,
    {
        let b = digest[i];
        out.push(hex_digit_char(b / 16));
        out.push(hex_digit_char(b % 16));
        proof {
            assert(digest@.take(i + 1).drop_last() =~= digest@.take(i as int));
            assert(digest@.take(i + 1).last() == b);
        }
        i += 1;
    }
    assert(digest@.take(digest.len() as int) =~= digest@);
    string_of(out.as_slice())
}

// ---------------------------------------------------------------------
// Items
// ---------------------------------------------------------------------

/// Item types left out of the index.
pub open spec fn excluded_type(t: Seq<char>) -> bool {
    t == "attachment"@ || t == "note"@ || t == "annotation"@
}

fn is_excluded_type(t: &str) -> (res: bool)
    ensures
        res == excluded_type(t@),
{
    crate::text::str_eq(t, "attachment") || crate::text::str_eq(t, "note")
        || crate::text::str_eq(t, "annotation")
}

/// The non-empty cleaned tags, in order.
pub open spec fn tag_texts(tags: Seq<TagEntry>) -> Seq<Seq<char>>
    decreases tags.len(),
{
    if tags.len() == 0 {
        Seq::empty()
    } else {
        let rest = tag_texts(tags.drop_last());
        if clean(tags.last().tag@).len() > 0 {
            rest.push(clean(tags.last().tag@))
        } else {
            rest
        }
    }
}

fn tags_text(tags: &Vec<TagEntry>) -> (res: String)
    ensures
        res@ == join(tag_texts(tags@), "; "@),
{
    let mut names: Vec<Vec<char>> = Vec::new();
    let mut i: usize = 0;
    while i < tags.len()
        invariant
            i <= tags.len(),
            names@.map_values(|n: Vec<char>| n@) == tag_texts(tags@.take(i as int)),
        decreases tags.len() - i,
    {
        let n = clean_chars(tags[i].tag.as_str());
        proof {
            assert(tags@.take(i + 1).drop_last() =~= tags@.take(i as int));
            assert(tags@.take(i + 1).last() == tags@[i as int]);
        }
        if n.len() > 0 {
            let ghost before = names@;
            names.push(n);
            assert(names@.map_values(|n: Vec<char>| n@) =~= before.map_values(|n: Vec<char>| n@).push(
                n@,
            ));
        }
        i += 1;
    }
    assert(tags@.take(tags.len() as int) =~= tags@);
    let sep = chars_of("; ");
    let v = join_chars(&names, &sep);
    string_of(v.as_slice())
}

/// The title, or `[无标题] -- <key>` when it cleans to nothing.
pub open spec fn item_title(raw: ZoteroItem) -> Seq<char> {
    if clean(raw.data.title@).len() > 0 {
        clean(raw.data.title@)
    } else {
        "[无标题] -- "@ + raw.key@
    }
}

/// `item` is the indexed record of `raw`.
pub open spec fn normalized_from(
    item: IndexedItem,
    raw: ZoteroItem,
    library: RemoteLibrary,
    library_db_id: i64,
    raw_json: Option<String>,
    index_abstract: bool,
    index_extra: bool,
) -> bool {
    let d = raw.data;
    &&& item.id == 0
    &&& item.library_id == library_db_id
    &&& item.item_key@ == raw.key@
    &&& item.item_version == raw.version
    &&& item.item_type@ == d.item_type@
    &&& item.title@ == item_title(raw)
    &&& item.creators@ == join(creator_texts(d.creators@), "; "@)
    &&& item.primary_creator@ == primary_creator(d.creators@)
    &&& item.year@ == year_of(d.date@)
    &&& item.container_title@ == first_nonempty(container_candidates(d))
    &&& item.tags@ == join(tag_texts(d.tags@), "; "@)
    &&& item.abstract_note@ == (if index_abstract {
        clean(d.abstract_note@)
    } else {
        Seq::empty()
    })
    &&& item.extra@ == (if index_extra {
        clean(d.extra@)
    } else {
        Seq::empty()
    })
    &&& (item.date_modified is Some <==> clean(d.date_modified@).len() > 0)
    &&& (item.date_modified matches Some(m) ==> m@ == clean(d.date_modified@))
    &&& item.select_uri@ == select_uri(library.kind, library.zotero_library_id@, raw.key@)
    &&& item.mirror_filename is None
    &&& item.raw_json == raw_json
    &&& item.content_hash@ == hex(sha256(hashed_bytes(item)))
}

/// Normalize a raw API item; `raw_json` is the item's JSON text when it is
/// to be kept with the record. Returns `None` for excluded types and for
/// trashed items (the caller treats those as deletions).
pub fn normalize_item(
    raw: &ZoteroItem,
    library: &RemoteLibrary,
    library_db_id: i64,
    raw_json: Option<String>,
    index_abstract: bool,
    index_extra: bool,
) -> (res: Option<IndexedItem>)
    ensures
        res is None <==> (excluded_type(raw.data.item_type@) || trashed(raw.data.deleted)),
        res matches Some(item) ==> normalized_from(
            item,
            *raw,
            *library,
            library_db_id,
            raw_json,
            index_abstract,
            index_extra,
        ),
{
    let d = &raw.data;
    if is_excluded_type(d.item_type.as_str()) || d.is_trashed() {
        return None;
    }
    let t = clean_chars(d.title.as_str());
    let title = if t.len() > 0 {
        string_of(t.as_slice())
    } else {
        crate::text::cat2("[无标题] -- ", raw.key.as_str())
    };
    let abstract_note = if index_abstract {
        clean_text(d.abstract_note.as_str())
    } else {
        String::new()
    };
    let extra = if index_extra {
        clean_text(d.extra.as_str())
    } else {
        String::new()
    };
    let dm = clean_chars(d.date_modified.as_str());
    let date_modified = if dm.len() > 0 {
        Some(string_of(dm.as_slice()))
    } else {
        None
    };
    let mut item = IndexedItem {
        id: 0,
        library_id: library_db_id,
        item_key: raw.key.clone(),
        item_version: raw.version,
        item_type: d.item_type.clone(),
        title,
        creators: format_creators(&d.creators),
        primary_creator: pick_primary_creator(&d.creators),
        year: extract_year(d.date.as_str()),
        container_title: container_title(d),
        tags: tags_text(&d.tags),
        abstract_note,
        extra,
        date_modified,
        select_uri: build_select_uri(
            library.kind,
            library.zotero_library_id.as_str(),
            raw.key.as_str(),
        ),
        mirror_filename: None,
        content_hash: String::new(),
        raw_json,
    };
    item.content_hash = content_hash(&item);
    Some(item)
}

/// The year of a date string.
pub open spec fn year_of(date: Seq<char>) -> Seq<char> {
    match regex_first_match(date, YEAR_PATTERN@) {
        Some(m) => m,
        None => Seq::empty(),
    }
}

/// The content hash that normalizing `raw` gives.
pub open spec fn norm_hash(raw: ZoteroItem, index_abstract: bool, index_extra: bool) -> Seq<char> {
    let d = raw.data;
    hex(
        sha256(
            hashed_fields(
                item_title(raw),
                join(creator_texts(d.creators@), "; "@),
                primary_creator(d.creators@),
                year_of(d.date@),
                first_nonempty(container_candidates(d)),
                join(tag_texts(d.tags@), "; "@),
                if index_abstract {
                    clean(d.abstract_note@)
                } else {
                    Seq::empty()
                },
                if index_extra {
                    clean(d.extra@)
                } else {
                    Seq::empty()
                },
                d.item_type@,
            ),
        ),
    )
}

pub proof fn lemma_normalized_hash(
    item: IndexedItem,
    raw: ZoteroItem,
    library: RemoteLibrary,
    library_db_id: i64,
    raw_json: Option<String>,
    index_abstract: bool,
    index_extra: bool,
)
    requires
        normalized_from(item, raw, library, library_db_id, raw_json, index_abstract, index_extra),
    ensures
        item.content_hash@ == norm_hash(raw, index_abstract, index_extra),
        item.item_version == raw.version,
        item.item_key@ == raw.key@,
        item.raw_json == raw_json,
{
}

/// A creator of type `t`, compared without ASCII case.
pub open spec fn of_type(c: Creator, t: Seq<char>) -> bool {
    lower_seq(c.creator_type@) == lower_seq(t)
}

proof fn lemma_first_of_type_at(cs: Seq<Creator>, t: Seq<char>, i: int)
    requires
        0 <= i < cs.len(),
        of_type(cs[i], t),
        forall|m: int| 0 <= m < i ==> !of_type(#[trigger] cs[m], t),
    ensures
        first_of_type(cs, t) == Some(cs[i]),
    decreases i,
{
    if i > 0 {
        let rest = cs.drop_first();
        assert forall|m: int| 0 <= m < i - 1 implies !of_type(#[trigger] rest[m], t) by {
            assert(rest[m] == cs[m + 1]);
        }
        assert(!of_type(cs[0], t));
        lemma_first_of_type_at(rest, t, i - 1);
    }
}

proof fn lemma_first_of_type_member(cs: Seq<Creator>, t: Seq<char>)
    ensures
        first_of_type(cs, t) matches Some(c) ==> exists|k: int|
            0 <= k < cs.len() && cs[k] == c && of_type(c, t),
        first_of_type(cs, t) is None ==> forall|k: int| 0 <= k < cs.len() ==> !of_type(#[trigger] cs[k], t),
    decreases cs.len(),
{
    if cs.len() > 0 {
        let rest = cs.drop_first();
        lemma_first_of_type_member(rest, t);
        if !of_type(cs[0], t) {
            if let Some(c) = first_of_type(rest, t) {
                let k = choose|k: int| 0 <= k < rest.len() && rest[k] == c && of_type(c, t);
                assert(cs[k + 1] == c);
            } else {
                assert forall|k: int| 0 <= k < cs.len() implies !of_type(#[trigger] cs[k], t) by {
                    if k > 0 {
                        assert(cs[k] == rest[k - 1]);
                    }
                }
            }
        }
    }
}

/// The first author (by type, ignoring ASCII case) is the primary creator
/// whenever their display name is not empty.
pub proof fn law_first_author_is_primary(cs: Seq<Creator>, i: int)
    requires
        0 <= i < cs.len(),
        of_type(cs[i], "author"@),
        forall|m: int| 0 <= m < i ==> !of_type(#[trigger] cs[m], "author"@),
        creator_text(cs[i]).len() > 0,
    ensures
        primary_creator(cs) == creator_text(cs[i]),
{
    lemma_first_of_type_at(cs, "author"@, i);
}

/// Without an author that has a name, the first editor is the primary
/// creator whenever their display name is not empty, ahead of any other
/// creator listed before them.
pub proof fn law_first_editor_without_author(cs: Seq<Creator>, j: int)
    requires
        forall|k: int|
            0 <= k < cs.len() && of_type(#[trigger] cs[k], "author"@) ==> creator_text(cs[k]).len()
                == 0,
        0 <= j < cs.len(),
        of_type(cs[j], "editor"@),
        forall|m: int| 0 <= m < j ==> !of_type(#[trigger] cs[m], "editor"@),
        creator_text(cs[j]).len() > 0,
    ensures
        primary_creator(cs) == creator_text(cs[j]),
{
    lemma_first_of_type_member(cs, "author"@);
    lemma_first_of_type_at(cs, "editor"@, j);
}

/// The primary creator is always the display name of one of the creators,
/// or `无作者` when no creator has one.
pub proof fn law_primary_creator_is_a_creator(cs: Seq<Creator>)
    ensures
        primary_creator(cs) == "无作者"@ || exists|k: int|
            0 <= k < cs.len() && creator_text(cs[k]).len() > 0 && primary_creator(cs)
                == creator_text(cs[k]),
        (forall|k: int| 0 <= k < cs.len() ==> creator_text(#[trigger] cs[k]).len() == 0)
            ==> primary_creator(cs) == "无作者"@,
{
    lemma_first_of_type_member(cs, "author"@);
    lemma_first_of_type_member(cs, "editor"@);
    if cs.len() > 0 {
        assert(creator_text(cs[0]).len() == creator_text(cs[0]).len());
    }
}

/// The container title is the first publication field that cleans to
/// something, in the order publicationTitle, bookTitle, proceedingsTitle,
/// encyclopediaTitle, dictionaryTitle, university, institution, publisher;
/// it is empty only when all of them clean to nothing.
pub proof fn law_container_title_priority(d: ItemData)
    ensures
        ({
            let r = first_nonempty(container_candidates(d));
            let a = clean(d.publication_title@);
            let b = clean(d.book_title@);
            let c = clean(d.proceedings_title@);
            let e = clean(d.encyclopedia_title@);
            let f = clean(d.dictionary_title@);
            let u = clean(d.university@);
            let i = clean(d.institution@);
            let p = clean(d.publisher@);
            &&& a.len() > 0 ==> r == a
            &&& a.len() == 0 && b.len() > 0 ==> r == b
            &&& a.len() == 0 && b.len() == 0 && c.len() > 0 ==> r == c
            &&& a.len() == 0 && b.len() == 0 && c.len() == 0 && e.len() > 0 ==> r == e
            &&& a.len() == 0 && b.len() == 0 && c.len() == 0 && e.len() == 0 && f.len() > 0 ==> r == f
            &&& a.len() == 0 && b.len() == 0 && c.len() == 0 && e.len() == 0 && f.len() == 0 && u.len()
                > 0 ==> r == u
            &&& a.len() == 0 && b.len() == 0 && c.len() == 0 && e.len() == 0 && f.len() == 0 && u.len()
                == 0 && i.len() > 0 ==> r == i
            &&& a.len() == 0 && b.len() == 0 && c.len() == 0 && e.len() == 0 && f.len() == 0 && u.len()
                == 0 && i.len() == 0 ==> r == p
        }),
{
    let v = container_candidates(d);
    let v1 = v.drop_first();
    let v2 = v1.drop_first();
    let v3 = v2.drop_first();
    let v4 = v3.drop_first();
    let v5 = v4.drop_first();
    let v6 = v5.drop_first();
    let v7 = v6.drop_first();
    let v8 = v7.drop_first();
    assert(v1[0] == clean(d.book_title@));
    assert(v2[0] == clean(d.proceedings_title@));
    assert(v3[0] == clean(d.encyclopedia_title@));
    assert(v4[0] == clean(d.dictionary_title@));
    assert(v5[0] == clean(d.university@));
    assert(v6[0] == clean(d.institution@));
    assert(v7[0] == clean(d.publisher@));
    assert(v8.len() == 0);
    assert(first_nonempty(v8) == Seq::<char>::empty());
    assert(first_nonempty(v7) == (if v7[0].len() > 0 { v7[0] } else { first_nonempty(v8) }));
    assert(first_nonempty(v6) == (if v6[0].len() > 0 { v6[0] } else { first_nonempty(v7) }));
    assert(first_nonempty(v5) == (if v5[0].len() > 0 { v5[0] } else { first_nonempty(v6) }));
    assert(first_nonempty(v4) == (if v4[0].len() > 0 { v4[0] } else { first_nonempty(v5) }));
    assert(first_nonempty(v3) == (if v3[0].len() > 0 { v3[0] } else { first_nonempty(v4) }));
    assert(first_nonempty(v2) == (if v2[0].len() > 0 { v2[0] } else { first_nonempty(v3) }));
    assert(first_nonempty(v1) == (if v1[0].len() > 0 { v1[0] } else { first_nonempty(v2) }));
}

} // verus!
