//! Query parsing and the SQL plan of a search.
//!
//! Strategy:
//! - terms with at least 3 characters go through FTS5 `MATCH` with the
//!   trigram tokenizer (substring-friendly for Chinese and mixed text);
//! - 1-2 character terms use `LIKE` post-filtering, or a pure `LIKE`
//!   query when no term is long enough;
//! - field qualifiers (author:, year:, tag:, type:, library:) map to
//!   column-scoped FTS phrases or equality filters;
//! - every value is a bound parameter, bound in the order MATCH, all LIKE
//!   conditions, all equality conditions, LIMIT;
//! - ranking uses BM25 with fixed column weights.

use crate::models::{FieldScope, SearchQuery, Term};
use crate::text::{
    matches_at, char_vec1, char_vec2, ascii_lower_chars, chars_eq, chars_of, find, find_chars, is_ws, is_ws_char,
    lemma_find_from_props, lower_seq, push_all, push_str, replace_all, replace_chars,
    slice_chars, string_of,
};
use vstd::prelude::*;

verus! {

/// Minimum term length (in Unicode characters) usable by the trigram
/// tokenizer.
pub const TRIGRAM_MIN: usize = 3;

/// A term by the characters it holds.
pub ghost enum TermView {
    Text(Seq<char>),
    Phrase(Seq<char>),
    Field(FieldScope, Seq<char>),
}

impl View for Term {
    type V = TermView;

    open spec fn view(&self) -> TermView {
        match self {
            Term::Text(s) => TermView::Text(s@),
            Term::Phrase(s) => TermView::Phrase(s@),
            Term::Field(f, s) => TermView::Field(*f, s@),
        }
    }
}

pub open spec fn terms_view(ts: Seq<Term>) -> Seq<TermView> {
    ts.map_values(|t: Term| t@)
}

// ---------------------------------------------------------------------
// Tokenizing
// ---------------------------------------------------------------------

/// Index of the first whitespace character (the length when none).
pub open spec fn ws_index(s: Seq<char>) -> int
    decreases s.len(),
{
    if s.len() == 0 {
        0
    } else if is_ws(s[0]) {
        0
    } else {
        1 + ws_index(s.drop_first())
    }
}

/// The field named by a qualifier (compared ASCII-case-insensitively).
pub open spec fn field_named(name: Seq<char>) -> Option<FieldScope> {
    let n = lower_seq(name);
    if n == "author"@ {
        Some(FieldScope::Author)
    } else if n == "year"@ {
        Some(FieldScope::Year)
    } else if n == "tag"@ {
        Some(FieldScope::Tag)
    } else if n == "type"@ {
        Some(FieldScope::Type)
    } else if n == "library"@ {
        Some(FieldScope::Library)
    } else {
        None
    }
}

/// `name:value` split at the first `':'` when `name` is a known field.
pub open spec fn split_field_spec(token: Seq<char>) -> Option<(FieldScope, Seq<char>)> {
    match find(token, seq![':']) {
        Some(i) => match field_named(token.take(i)) {
            Some(f) => Some((f, token.skip(i + 1))),
            None => None,
        },
        None => None,
    }
}

/// The term an unquoted token stands for.
pub open spec fn word_term(token: Seq<char>) -> TermView {
    match split_field_spec(token) {
        Some((f, v)) => if v.len() > 0 {
            TermView::Field(f, v)
        } else {
            TermView::Text(token)
        },
        None => TermView::Text(token),
    }
}

/// Split a query into terms: whitespace separates tokens, a double quote
/// starts a phrase that runs to the next double quote (or the end), empty
/// tokens are dropped, and `field:value` with a known field and a
/// non-empty value becomes a field term.
pub open spec fn tokens(s: Seq<char>) -> Seq<TermView>
    decreases s.len(),
{
    if s.len() == 0 {
        Seq::empty()
    } else if is_ws(s[0]) {
        tokens(s.drop_first())
    } else if s[0] == '"' {
        let rest = s.drop_first();
        match find(rest, seq!['"']) {
            Some(i) => if 0 <= i < rest.len() {
                let tok = rest.take(i);
                let after = rest.skip(i + 1);
                if tok.len() == 0 {
                    tokens(after)
                } else {
                    seq![TermView::Phrase(tok)] + tokens(after)
                }
            } else {
                Seq::empty()
            },
            None => if rest.len() == 0 {
                Seq::empty()
            } else {
                seq![TermView::Phrase(rest)]
            },
        }
    } else {
        let k = ws_index(s);
        if 0 < k <= s.len() {
            seq![word_term(s.take(k))] + tokens(s.skip(k))
        } else {
            Seq::empty()
        }
    }
}

proof fn lemma_ws_index(s: Seq<char>)
    ensures
        0 <= ws_index(s) <= s.len(),
        forall|j: int| 0 <= j < ws_index(s) ==> !is_ws(s[j]),
        ws_index(s) < s.len() ==> is_ws(s[ws_index(s)]),
    decreases s.len(),
{
    if s.len() > 0 && !is_ws(s[0]) {
        lemma_ws_index(s.drop_first());
        assert forall|j: int| 0 <= j < ws_index(s) implies !is_ws(s[j]) by {
            if j > 0 {
                assert(s[j] == s.drop_first()[j - 1]);
            }
        }
    }
}

proof fn lemma_ws_index_skip(s: Seq<char>, i: int)
    requires
        0 <= i <= ws_index(s),
    ensures
        ws_index(s.skip(i)) == ws_index(s) - i,
    decreases i,
{
    lemma_ws_index(s);
    if i > 0 {
        assert(s.skip(i - 1).drop_first() =~= s.skip(i));
        lemma_ws_index_skip(s, i - 1);
        assert(s.skip(i - 1)[0] == s[i - 1]);
    } else {
        assert(s.skip(0) =~= s);
    }
}

/// Split `name:value` at the first `':'` when `name` is a known field.
pub fn split_field(token: &str) -> (res: Option<(FieldScope, String)>)
    ensures
        match split_field_spec(token@) {
            Some((f, v)) => res matches Some((g, w)) && g == f && w@ == v,
            None => res is None,
        },
{
    let t = chars_of(token);
    let n = t.len();
    let colon = char_vec1(':');
    match find_chars(&t, &colon) {
        None => None,
        Some(i) => {
            proof {
                lemma_find_from_props(t@, colon@, 0);
                assert(matches_at(t@, colon@, i as int));
                assert(colon@.len() == 1);
                assert(i + 1 <= t@.len());
            }
            let name = ascii_lower_chars(&slice_chars(&t, 0, i));
            proof {
                assert(t@.subrange(0, i as int) =~= t@.take(i as int));
            }
            let value = string_of(&slice_chars(&t, i + 1, n));
            proof {
                assert(t@.subrange(i + 1, t@.len() as int) =~= t@.skip(i + 1));
            }
            if chars_eq(&name, &chars_of("author")) {
                Some((FieldScope::Author, value))
            } else if chars_eq(&name, &chars_of("year")) {
                Some((FieldScope::Year, value))
            } else if chars_eq(&name, &chars_of("tag")) {
                Some((FieldScope::Tag, value))
            } else if chars_eq(&name, &chars_of("type")) {
                Some((FieldScope::Type, value))
            } else if chars_eq(&name, &chars_of("library")) {
                Some((FieldScope::Library, value))
            } else {
                None
            }
        },
    }
}

fn word_term_exec(token: &Vec<char>) -> (res: Term)
    ensures
        res@ == word_term(token@),
{
    let s = string_of(token);
    match split_field(&s) {
        Some((f, v)) => {
            if chars_of(&v).len() > 0 {
                Term::Field(f, v)
            } else {
                Term::Text(s)
            }
        },
        None => Term::Text(s),
    }
}

/// Split a raw query into terms.
pub fn tokenize(input: &str) -> (res: Vec<Term>)
    ensures
        terms_view(res@) == tokens(input@),
{
    let s = chars_of(input);
    let mut out: Vec<Term> = Vec::new();
    let mut pos: usize = 0;
    assert(s@.skip(0) =~= s@);
    while pos < s.len()
        invariant
            pos <= s.len(),
            terms_view(out@) + tokens(s@.skip(pos as int)) == tokens(s@),
        decreases s.len() - pos,
    {
        let ghost t = s@.skip(pos as int);
        let ghost before = terms_view(out@);
        let c = s[pos];
        if is_ws_char(c) {
            proof {
                assert(t.drop_first() =~= s@.skip(pos + 1));
            }
            pos += 1;
        } else if c == '"' {
            let quote = char_vec1('"');
            let found = find_chars_from_skip(&s, &quote, pos + 1);
            proof {
                assert(t.drop_first() =~= s@.skip(pos + 1));
            }
            match found {
                Some(j) => {
                    let tok = slice_chars(&s, pos + 1, j);
                    proof {
                        let rest = t.drop_first();
                        let i = j - (pos + 1);
                        assert(rest.take(i) =~= tok@);
                        assert(rest.skip(i + 1) =~= s@.skip(j + 1));
                    }
                    if tok.len() > 0 {
                        out.push(Term::Phrase(string_of(&tok)));
                        proof {
                            assert(terms_view(out@) =~= before + seq![
                                TermView::Phrase(tok@),
                            ]);
                        }
                    }
                    pos = j + 1;
                },
                None => {
                    let tok = slice_chars(&s, pos + 1, s.len());
                    proof {
                        assert(tok@ =~= t.drop_first());
                    }
                    if tok.len() > 0 {
                        out.push(Term::Phrase(string_of(&tok)));
                        proof {
                            assert(terms_view(out@) =~= before + seq![
                                TermView::Phrase(tok@),
                            ]);
                        }
                    }
                    proof {
                        assert(tokens(s@.skip(s.len() as int)) =~= Seq::<TermView>::empty());
                        assert(terms_view(out@) + Seq::<TermView>::empty() =~= terms_view(
                            out@,
                        ));
                    }
                    pos = s.len();
                },
            }
        } else {
            let mut end = pos;
            while end < s.len() && !is_ws_char(s[end])
                invariant
                    pos <= end <= s.len(),
                    forall|j: int| pos <= j < end ==> !is_ws(#[trigger] s@[j]),
                decreases s.len() - end,
            {
                end += 1;
            }
            let tok = slice_chars(&s, pos, end);
            proof {
                lemma_ws_index(t);
                let k = ws_index(t);
                assert(k == end - pos) by {
                    if k < end - pos {
                        assert(t[k] == s@[pos + k]);
                    }
                    if k > end - pos {
                        assert(end < s.len());
                        assert(t[end - pos] == s@[end as int]);
                    }
                }
                assert(t.take(k) =~= tok@);
                assert(t.skip(k) =~= s@.skip(end as int));
            }
            let term = word_term_exec(&tok);
            out.push(term);
            proof {
                assert(terms_view(out@) =~= before + seq![word_term(tok@)]);
            }
            pos = end;
        }
    }
    proof {
        assert(tokens(s@.skip(pos as int)) =~= Seq::<TermView>::empty());
        assert(terms_view(out@) + Seq::<TermView>::empty() =~= terms_view(out@));
    }
    out
}

/// The next `p` at or after `start`, reported relative to the whole text.
fn find_chars_from_skip(s: &Vec<char>, p: &Vec<char>, start: usize) -> (res: Option<usize>)
    requires
        start <= s.len(),
    ensures
        match res {
            Some(j) => find(s@.skip(start as int), p@) == Some(j - start) && start <= j && j
                + p@.len() <= s.len(),
            None => find(s@.skip(start as int), p@) is None,
        },
{
    let r = crate::text::find_from_chars(s, p, start);
    proof {
        crate::text::lemma_find_from_skip(s@, p@, start as int, 0);
        crate::text::lemma_find_from_props(s@, p@, start as int);
    }
    r
}

/// Parse a raw query string into a `SearchQuery`; the default limit is
/// clamped into `1..=maximum_limit`.
pub fn parse_query(input: &str, default_limit: u32, maximum_limit: u32) -> (res: SearchQuery)
    requires
        maximum_limit >= 1,
    ensures
        terms_view(res.terms@) == tokens(input@),
        res.limit == (if default_limit < 1 {
            1
        } else if default_limit > maximum_limit {
            maximum_limit
        } else {
            default_limit
        }),
{
    let limit = if default_limit < 1 {
        1
    } else if default_limit > maximum_limit {
        maximum_limit
    } else {
        default_limit
    };
    SearchQuery { terms: tokenize(input), limit }
}

/// Parse a raw query string with an explicit limit.
pub fn build_search_query(input: &str, limit: u32) -> (res: SearchQuery)
    ensures
        terms_view(res.terms@) == tokens(input@),
        res.limit == limit,
{
    SearchQuery { terms: tokenize(input), limit }
}

// ---------------------------------------------------------------------
// Escaping
// ---------------------------------------------------------------------

/// Number of Unicode characters.
pub fn char_len(s: &str) -> (res: usize)
    ensures
        res == s@.len(),
{
    chars_of(s).len()
}

/// Escape a value for use inside an FTS5 quoted phrase: `"` is doubled.
pub open spec fn fts_escape_spec(s: Seq<char>) -> Seq<char> {
    replace_all(s, seq!['"'], seq!['"', '"'])
}

pub fn fts_escape(s: &str) -> (res: String)
    ensures
        res@ == fts_escape_spec(s@),
{
    let r = replace_chars(
        &chars_of(s),
        &char_vec1('"'),
        &char_vec2('"', '"'),
    );
    string_of(&r)
}

/// Escape a value for a LIKE pattern with `ESCAPE '\'`: `\`, `%` and `_`
/// get a backslash, in that order.
pub open spec fn like_escape_spec(s: Seq<char>) -> Seq<char> {
    replace_all(
        replace_all(replace_all(s, seq!['\\'], seq!['\\', '\\']), seq!['%'], seq!['\\', '%']),
        seq!['_'],
        seq!['\\', '_'],
    )
}

pub fn like_escape(s: &str) -> (res: String)
    ensures
        res@ == like_escape_spec(s@),
{
    let a = replace_chars(&chars_of(s), &char_vec1('\\'), &char_vec2('\\', '\\'));
    let b = replace_chars(&a, &char_vec1('%'), &char_vec2('\\', '%'));
    let c = replace_chars(&b, &char_vec1('_'), &char_vec2('\\', '_'));
    string_of(&c)
}

/// The LIKE condition on one column.
pub open spec fn like_on(column: Seq<char>) -> Seq<char> {
    column + " LIKE '%' || ? || '%' ESCAPE '\\'"@
}

/// The conditions of `cols` joined with `" OR "`.
pub open spec fn or_join(cols: Seq<Seq<char>>) -> Seq<char>
    decreases cols.len(),
{
    if cols.len() == 0 {
        Seq::empty()
    } else if cols.len() == 1 {
        like_on(cols[0])
    } else {
        or_join(cols.drop_last()) + " OR "@ + like_on(cols.last())
    }
}

/// `(c1 LIKE ... OR c2 LIKE ...)`, one placeholder per column.
pub open spec fn like_clause_spec(cols: Seq<Seq<char>>) -> Seq<char> {
    "("@ + or_join(cols) + ")"@
}

pub fn like_clause(columns: &Vec<&str>) -> (res: String)
    ensures
        res@ == like_clause_spec(columns@.map_values(|c: &str| c@)),
{
    let ghost cols = columns@.map_values(|c: &str| c@);
    let mut body: Vec<char> = Vec::new();
    let mut i: usize = 0;
    while i < columns.len()
        invariant
            i <= columns.len(),
            cols == columns@.map_values(|c: &str| c@),
            body@ == or_join(cols.take(i as int)),
        decreases columns.len() - i,
    {
        if i > 0 {
            push_str(&mut body, " OR ");
        }
        push_str(&mut body, columns[i]);
        push_str(&mut body, " LIKE '%' || ? || '%' ESCAPE '\\'");
        proof {
            assert(cols.take(i + 1).drop_last() =~= cols.take(i as int));
            assert(cols.take(i + 1).last() == columns@[i as int]@);
            if i == 0 {
                assert(or_join(cols.take(0)) =~= Seq::<char>::empty());
            }
        }
        i += 1;
    }
    proof {
        assert(cols.take(columns.len() as int) =~= cols);
    }
    let mut out: Vec<char> = Vec::new();
    push_str(&mut out, "(");
    push_all(&mut out, &body);
    push_str(&mut out, ")");
    string_of(&out)
}

// ---------------------------------------------------------------------
// The SQL plan
// ---------------------------------------------------------------------

/// A bound SQL parameter.
#[derive(Debug, Clone, PartialEq, Eq)]
pub enum SqlParam {
    Text(String),
    Int(i64),
}

pub ghost enum SqlParamView {
    Text(Seq<char>),
    Int(i64),
}

impl View for SqlParam {
    type V = SqlParamView;

    open spec fn view(&self) -> SqlParamView {
        match self {
            SqlParam::Text(s) => SqlParamView::Text(s@),
            SqlParam::Int(n) => SqlParamView::Int(*n),
        }
    }
}

/// The statement to run and the values to bind, in placeholder order.
#[derive(Debug, Clone)]
pub struct SearchPlan {
    pub sql: String,
    pub params: Vec<SqlParam>,
}

/// What one term adds to the query.
pub ghost enum Part {
    /// An FTS5 MATCH clause.
    Fts(Seq<char>),
    /// A LIKE condition and its values.
    Like(Seq<char>, Seq<Seq<char>>),
    /// An equality condition and its value.
    Eq(Seq<char>, Seq<char>),
}

pub open spec fn text_columns() -> Seq<Seq<char>> {
    seq!["i.title"@, "i.creators"@, "i.primary_creator"@, "i.tags"@]
}

pub open spec fn creator_columns() -> Seq<Seq<char>> {
    seq!["i.creators"@, "i.primary_creator"@]
}

pub open spec fn tag_columns() -> Seq<Seq<char>> {
    seq!["i.tags"@]
}

/// `value` once per column.
pub open spec fn repeat(value: Seq<char>, n: nat) -> Seq<Seq<char>> {
    Seq::new(n, |_i: int| value)
}

/// An FTS5 phrase after an optional column filter prefix.
pub open spec fn phrase(prefix: Seq<char>, v: Seq<char>) -> Seq<char> {
    prefix + seq!['"'] + fts_escape_spec(v) + seq!['"']
}

/// The contribution of one term: long text goes to FTS, short text to
/// LIKE; year and type are equalities, library a LIKE on the library
/// name; author and tag go to a column-scoped FTS phrase when long, LIKE
/// on their columns when short.
pub open spec fn term_part(t: TermView) -> Part {
    match t {
        TermView::Text(v) | TermView::Phrase(v) => if v.len() >= TRIGRAM_MIN {
            Part::Fts(phrase(Seq::empty(), v))
        } else {
            Part::Like(like_clause_spec(text_columns()), repeat(like_escape_spec(v), 4))
        },
        TermView::Field(scope, v) => match scope {
            FieldScope::Year => Part::Eq("i.year = ?"@, v),
            FieldScope::Type => Part::Eq("i.item_type = ?"@, v),
            FieldScope::Library => Part::Eq(
                "l.display_name LIKE '%' || ? || '%' ESCAPE '\\'"@,
                like_escape_spec(v),
            ),
            FieldScope::Author => if v.len() >= TRIGRAM_MIN {
                Part::Fts(phrase("{primary_creator creators} : "@, v))
            } else {
                Part::Like(like_clause_spec(creator_columns()), repeat(like_escape_spec(v), 2))
            },
            FieldScope::Tag => if v.len() >= TRIGRAM_MIN {
                Part::Fts(phrase("tags : "@, v))
            } else {
                Part::Like(like_clause_spec(tag_columns()), repeat(like_escape_spec(v), 1))
            },
        },
    }
}

/// The five lists that the terms build, in term order: FTS clauses, LIKE
/// conditions, LIKE values, equality conditions, equality values.
pub ghost struct Parts {
    pub fts: Seq<Seq<char>>,
    pub like_conds: Seq<Seq<char>>,
    pub like_params: Seq<Seq<char>>,
    pub eq_conds: Seq<Seq<char>>,
    pub eq_params: Seq<Seq<char>>,
}

pub open spec fn add_part(p: Parts, part: Part) -> Parts {
    match part {
        Part::Fts(c) => Parts { fts: p.fts.push(c), ..p },
        Part::Like(c, vs) => Parts {
            like_conds: p.like_conds.push(c),
            like_params: p.like_params + vs,
            ..p
        },
        Part::Eq(c, v) => Parts { eq_conds: p.eq_conds.push(c), eq_params: p.eq_params.push(v), ..p },
    }
}

pub open spec fn collect_parts(ts: Seq<TermView>) -> Parts
    decreases ts.len(),
{
    if ts.len() == 0 {
        Parts {
            fts: Seq::empty(),
            like_conds: Seq::empty(),
            like_params: Seq::empty(),
            eq_conds: Seq::empty(),
            eq_params: Seq::empty(),
        }
    } else {
        add_part(collect_parts(ts.drop_last()), term_part(ts.last()))
    }
}

/// Strings joined with a separator.
pub open spec fn join(ss: Seq<Seq<char>>, sep: Seq<char>) -> Seq<char>
    decreases ss.len(),
{
    if ss.len() == 0 {
        Seq::empty()
    } else if ss.len() == 1 {
        ss[0]
    } else {
        join(ss.drop_last(), sep) + sep + ss.last()
    }
}

/// `" AND c"` for every condition, in order.
pub open spec fn and_conds(cs: Seq<Seq<char>>) -> Seq<char>
    decreases cs.len(),
{
    if cs.len() == 0 {
        Seq::empty()
    } else {
        and_conds(cs.drop_last()) + " AND "@ + cs.last()
    }
}

pub open spec fn fts_select() -> Seq<char> {
    "SELECT i.item_key, l.library_kind, l.zotero_library_id, l.display_name,\n                    i.title, i.creators, i.year, i.container_title, i.item_type,\n                    i.select_uri,\n                    bm25(items_fts, 10.0, 6.0, 4.0, 3.0, 2.5, 2.0, 0.5, 0.5) AS score\n             FROM items_fts\n             JOIN items i ON i.id = items_fts.rowid\n             JOIN libraries l ON l.id = i.library_id\n             WHERE items_fts MATCH ? AND l.enabled = 1"@
}

pub open spec fn like_select() -> Seq<char> {
    "SELECT i.item_key, l.library_kind, l.zotero_library_id, l.display_name,\n                    i.title, i.creators, i.year, i.container_title, i.item_type,\n                    i.select_uri, 0.0 AS score\n             FROM items i\n             JOIN libraries l ON l.id = i.library_id\n             WHERE l.enabled = 1"@
}

pub open spec fn recent_select() -> Seq<char> {
    "SELECT i.item_key, l.library_kind, l.zotero_library_id, l.display_name,\n                    i.title, i.creators, i.year, i.container_title, i.item_type,\n                    i.select_uri, 0.0 AS score\n             FROM items i\n             JOIN libraries l ON l.id = i.library_id\n             WHERE l.enabled = 1\n             ORDER BY i.updated_at DESC LIMIT ?"@
}

/// The statement for a query: FTS when some term needs FTS, else the LIKE
/// fallback when there are conditions, else the most recent items.
pub open spec fn plan_sql(ts: Seq<TermView>) -> Seq<char> {
    let p = collect_parts(ts);
    if p.fts.len() > 0 {
        fts_select() + and_conds(p.like_conds + p.eq_conds) + " ORDER BY score ASC LIMIT ?"@
    } else if p.like_conds.len() > 0 || p.eq_conds.len() > 0 {
        like_select() + and_conds(p.like_conds + p.eq_conds)
            + " ORDER BY i.year DESC, i.title ASC LIMIT ?"@
    } else {
        recent_select()
    }
}

pub open spec fn texts(ss: Seq<Seq<char>>) -> Seq<SqlParamView> {
    ss.map_values(|s: Seq<char>| SqlParamView::Text(s))
}

/// The bound values: the MATCH string (FTS clauses joined by spaces) when
/// there is one, then every LIKE value, every equality value, and the
/// limit (at least 1).
pub open spec fn plan_params(ts: Seq<TermView>, limit: u32) -> Seq<SqlParamView> {
    let p = collect_parts(ts);
    let head = if p.fts.len() > 0 {
        seq![SqlParamView::Text(join(p.fts, seq![' ']))]
    } else {
        Seq::empty()
    };
    let lim: i64 = if limit >= 1 {
        limit as i64
    } else {
        1
    };
    head + texts(p.like_params) + texts(p.eq_params) + seq![SqlParamView::Int(lim)]
}

fn push_like(
    cond: &mut Vec<Vec<char>>,
    params: &mut Vec<Vec<char>>,
    columns: &Vec<&str>,
    value: &str,
)
    ensures
        final(cond)@.map_values(|c: Vec<char>| c@) == old(cond)@.map_values(|c: Vec<char>| c@).push(
            like_clause_spec(columns@.map_values(|c: &str| c@)),
        ),
        final(params)@.map_values(|c: Vec<char>| c@) == old(params)@.map_values(|c: Vec<char>| c@)
            + repeat(like_escape_spec(value@), columns@.len()),
{
    let ghost old_params = params@.map_values(|c: Vec<char>| c@);
    let ghost old_cond = cond@.map_values(|c: Vec<char>| c@);
    cond.push(chars_of(&like_clause(columns)));
    proof {
        assert(cond@.map_values(|c: Vec<char>| c@) =~= old_cond.push(
            like_clause_spec(columns@.map_values(|c: &str| c@)),
        ));
    }
    let esc = chars_of(&like_escape(value));
    let mut i: usize = 0;
    while i < columns.len()
        invariant
            i <= columns.len(),
            esc@ == like_escape_spec(value@),
            params@.map_values(|c: Vec<char>| c@) == old_params + repeat(esc@, i as nat),
        decreases columns.len() - i,
    {
        let ghost prev = params@.map_values(|c: Vec<char>| c@);
        let copy = crate::text::slice_chars(&esc, 0, esc.len());
        assert(copy@ =~= esc@);
        params.push(copy);
        proof {
            assert(params@.map_values(|c: Vec<char>| c@) =~= prev.push(esc@));
            assert(repeat(esc@, (i + 1) as nat) =~= repeat(esc@, i as nat).push(esc@));
            assert(old_params + repeat(esc@, (i + 1) as nat) =~= (old_params + repeat(
                esc@,
                i as nat,
            )).push(esc@));
        }
        i += 1;
    }
}

pub open spec fn vv(v: Vec<Vec<char>>) -> Seq<Seq<char>> {
    v@.map_values(|c: Vec<char>| c@)
}

fn fts_phrase(prefix: &str, value: &str) -> (res: Vec<char>)
    ensures
        res@ == phrase(prefix@, value@),
{
    let mut out: Vec<char> = Vec::new();
    push_str(&mut out, prefix);
    out.push('"');
    push_str(&mut out, &fts_escape(value));
    out.push('"');
    out
}

/// The columns searched by short free-text terms.
fn text_columns_exec() -> (res: Vec<&'static str>)
    ensures
        res@.map_values(|c: &str| c@) == text_columns(),
{
    let v = vec!["i.title", "i.creators", "i.primary_creator", "i.tags"];
    proof {
        assert(v@.map_values(|c: &str| c@) =~= text_columns());
    }
    v
}

fn creator_columns_exec() -> (res: Vec<&'static str>)
    ensures
        res@.map_values(|c: &str| c@) == creator_columns(),
{
    let v = vec!["i.creators", "i.primary_creator"];
    proof {
        assert(v@.map_values(|c: &str| c@) =~= creator_columns());
    }
    v
}

fn tag_columns_exec() -> (res: Vec<&'static str>)
    ensures
        res@.map_values(|c: &str| c@) == tag_columns(),
{
    let v = vec!["i.tags"];
    proof {
        assert(v@.map_values(|c: &str| c@) =~= tag_columns());
    }
    v
}

fn push_view(v: &mut Vec<Vec<char>>, x: Vec<char>)
    ensures
        vv(*final(v)) == vv(*old(v)).push(x@),
{
    v.push(x);
    proof {
        assert(vv(*v) =~= vv(*old(v)).push(x@));
    }
}

/// The SQL statement and bound values that run a parsed query.
pub fn plan_search(query: &SearchQuery) -> (res: SearchPlan)
    ensures
        res.sql@ == plan_sql(terms_view(query.terms@)),
        res.params@.map_values(|p: SqlParam| p@) == plan_params(
            terms_view(query.terms@),
            query.limit,
        ),
{
    let ghost tv = terms_view(query.terms@);
    let mut fts: Vec<Vec<char>> = Vec::new();
    let mut like_conds: Vec<Vec<char>> = Vec::new();
    let mut like_params: Vec<Vec<char>> = Vec::new();
    let mut eq_conds: Vec<Vec<char>> = Vec::new();
    let mut eq_params: Vec<Vec<char>> = Vec::new();
    let mut i: usize = 0;
    while i < query.terms.len()
        invariant
            i <= query.terms.len(),
            tv == terms_view(query.terms@),
            vv(fts) == collect_parts(tv.take(i as int)).fts,
            vv(like_conds) == collect_parts(tv.take(i as int)).like_conds,
            vv(like_params) == collect_parts(tv.take(i as int)).like_params,
            vv(eq_conds) == collect_parts(tv.take(i as int)).eq_conds,
            vv(eq_params) == collect_parts(tv.take(i as int)).eq_params,
        decreases query.terms.len() - i,
    {
        proof {
            reveal_strlit("");
            assert(tv.take(i + 1).drop_last() =~= tv.take(i as int));
            assert(tv.take(i + 1).last() == query.terms@[i as int]@);
        }
        match &query.terms[i] {
            Term::Text(t) | Term::Phrase(t) => {
                if char_len(t.as_str()) >= TRIGRAM_MIN {
                    let clause = fts_phrase("", t.as_str());
                    proof {
                        assert(""@ =~= Seq::<char>::empty());
                    }
                    push_view(&mut fts, clause);
                } else {
                    push_like(&mut like_conds, &mut like_params, &text_columns_exec(), t.as_str());
                }
            },
            Term::Field(scope, v) => match scope {
                FieldScope::Year => {
                    push_view(&mut eq_conds, chars_of("i.year = ?"));
                    push_view(&mut eq_params, chars_of(v.as_str()));
                },
                FieldScope::Type => {
                    push_view(&mut eq_conds, chars_of("i.item_type = ?"));
                    push_view(&mut eq_params, chars_of(v.as_str()));
                },
                FieldScope::Library => {
                    push_view(
                        &mut eq_conds,
                        chars_of("l.display_name LIKE '%' || ? || '%' ESCAPE '\\'"),
                    );
                    push_view(&mut eq_params, chars_of(&like_escape(v.as_str())));
                },
                FieldScope::Author => {
                    if char_len(v.as_str()) >= TRIGRAM_MIN {
                        push_view(
                            &mut fts,
                            fts_phrase("{primary_creator creators} : ", v.as_str()),
                        );
                    } else {
                        push_like(
                            &mut like_conds,
                            &mut like_params,
                            &creator_columns_exec(),
                            v.as_str(),
                        );
                    }
                },
                FieldScope::Tag => {
                    if char_len(v.as_str()) >= TRIGRAM_MIN {
                        push_view(&mut fts, fts_phrase("tags : ", v.as_str()));
                    } else {
                        push_like(&mut like_conds, &mut like_params, &tag_columns_exec(), v.as_str());
                    }
                },
            },
        }
        i += 1;
    }
    proof {
        assert(tv.take(query.terms.len() as int) =~= tv);
    }
    let ghost p = collect_parts(tv);
    // Conditions in SQL order: every LIKE condition, then every equality.
    let mut conds: Vec<Vec<char>> = Vec::new();
    let mut k: usize = 0;
    while k < like_conds.len()
        invariant
            k <= like_conds.len(),
            vv(conds) == vv(like_conds).take(k as int),
        decreases like_conds.len() - k,
    {
        let copy = crate::text::slice_chars(&like_conds[k], 0, like_conds[k].len());
        assert(copy@ =~= like_conds@[k as int]@);
        push_view(&mut conds, copy);
        proof {
            assert(vv(like_conds).take(k + 1) =~= vv(like_conds).take(k as int).push(
                like_conds@[k as int]@,
            ));
        }
        k += 1;
    }
    k = 0;
    proof {
        assert(vv(like_conds).take(like_conds.len() as int) =~= vv(like_conds));
    }
    while k < eq_conds.len()
        invariant
            k <= eq_conds.len(),
            vv(conds) == vv(like_conds) + vv(eq_conds).take(k as int),
        decreases eq_conds.len() - k,
    {
        let copy = crate::text::slice_chars(&eq_conds[k], 0, eq_conds[k].len());
        assert(copy@ =~= eq_conds@[k as int]@);
        push_view(&mut conds, copy);
        proof {
            assert(vv(eq_conds).take(k + 1) =~= vv(eq_conds).take(k as int).push(
                eq_conds@[k as int]@,
            ));
        }
        k += 1;
    }
    proof {
        assert(vv(eq_conds).take(eq_conds.len() as int) =~= vv(eq_conds));
    }
    let mut and_text: Vec<char> = Vec::new();
    k = 0;
    while k < conds.len()
        invariant
            k <= conds.len(),
            and_text@ == and_conds(vv(conds).take(k as int)),
        decreases conds.len() - k,
    {
        push_str(&mut and_text, " AND ");
        crate::text::push_all(&mut and_text, &conds[k]);
        proof {
            assert(vv(conds).take(k + 1).drop_last() =~= vv(conds).take(k as int));
        }
        k += 1;
    }
    proof {
        assert(vv(conds).take(conds.len() as int) =~= vv(conds));
    }
    let mut sql: Vec<char> = Vec::new();
    let mut params: Vec<SqlParam> = Vec::new();
    if fts.len() > 0 {
        push_str(
            &mut sql,
            "SELECT i.item_key, l.library_kind, l.zotero_library_id, l.display_name,\n                    i.title, i.creators, i.year, i.container_title, i.item_type,\n                    i.select_uri,\n                    bm25(items_fts, 10.0, 6.0, 4.0, 3.0, 2.5, 2.0, 0.5, 0.5) AS score\n             FROM items_fts\n             JOIN items i ON i.id = items_fts.rowid\n             JOIN libraries l ON l.id = i.library_id\n             WHERE items_fts MATCH ? AND l.enabled = 1",
        );
        crate::text::push_all(&mut sql, &and_text);
        push_str(&mut sql, " ORDER BY score ASC LIMIT ?");
        let mut m: Vec<char> = Vec::new();
        let mut j: usize = 0;
        while j < fts.len()
            invariant
                j <= fts.len(),
                m@ == join(vv(fts).take(j as int), seq![' ']),
            decreases fts.len() - j,
        {
            if j > 0 {
                m.push(' ');
            }
            crate::text::push_all(&mut m, &fts[j]);
            proof {
                assert(vv(fts).take(j + 1).drop_last() =~= vv(fts).take(j as int));
                if j == 0 {
                    assert(m@ =~= vv(fts).take(1)[0]);
                } else {
                    assert(m@ =~= join(vv(fts).take(j as int), seq![' ']) + seq![' '] + fts@[j as int]@);
                }
            }
            j += 1;
        }
        proof {
            assert(vv(fts).take(fts.len() as int) =~= vv(fts));
        }
        params.push(SqlParam::Text(string_of(&m)));
    } else if like_conds.len() > 0 || eq_conds.len() > 0 {
        push_str(
            &mut sql,
            "SELECT i.item_key, l.library_kind, l.zotero_library_id, l.display_name,\n                    i.title, i.creators, i.year, i.container_title, i.item_type,\n                    i.select_uri, 0.0 AS score\n             FROM items i\n             JOIN libraries l ON l.id = i.library_id\n             WHERE l.enabled = 1",
        );
        crate::text::push_all(&mut sql, &and_text);
        push_str(&mut sql, " ORDER BY i.year DESC, i.title ASC LIMIT ?");
    } else {
        push_str(
            &mut sql,
            "SELECT i.item_key, l.library_kind, l.zotero_library_id, l.display_name,\n                    i.title, i.creators, i.year, i.container_title, i.item_type,\n                    i.select_uri, 0.0 AS score\n             FROM items i\n             JOIN libraries l ON l.id = i.library_id\n             WHERE l.enabled = 1\n             ORDER BY i.updated_at DESC LIMIT ?",
        );
    }
    let ghost head = params@.map_values(|x: SqlParam| x@);
    let mut q: usize = 0;
    while q < like_params.len()
        invariant
            q <= like_params.len(),
            params@.map_values(|x: SqlParam| x@) == head + texts(vv(like_params).take(q as int)),
        decreases like_params.len() - q,
    {
        let ghost prev = params@.map_values(|x: SqlParam| x@);
        let item = SqlParam::Text(string_of(&like_params[q]));
        params.push(item);
        proof {
            assert(params@.map_values(|x: SqlParam| x@) =~= prev.push(item@));
            assert(texts(vv(like_params).take(q + 1)) =~= texts(vv(like_params).take(q as int)).push(
                SqlParamView::Text(like_params@[q as int]@),
            ));
            assert(params@.map_values(|x: SqlParam| x@) =~= head + texts(vv(like_params).take(q + 1)));
        }
        q += 1;
    }
    proof {
        assert(vv(like_params).take(like_params.len() as int) =~= vv(like_params));
    }
    let ghost head2 = params@.map_values(|x: SqlParam| x@);
    q = 0;
    while q < eq_params.len()
        invariant
            q <= eq_params.len(),
            params@.map_values(|x: SqlParam| x@) == head2 + texts(vv(eq_params).take(q as int)),
        decreases eq_params.len() - q,
    {
        let ghost prev = params@.map_values(|x: SqlParam| x@);
        let item = SqlParam::Text(string_of(&eq_params[q]));
        params.push(item);
        proof {
            assert(params@.map_values(|x: SqlParam| x@) =~= prev.push(item@));
            assert(texts(vv(eq_params).take(q + 1)) =~= texts(vv(eq_params).take(q as int)).push(
                SqlParamView::Text(eq_params@[q as int]@),
            ));
            assert(params@.map_values(|x: SqlParam| x@) =~= head2 + texts(vv(eq_params).take(q + 1)));
        }
        q += 1;
    }
    proof {
        assert(vv(eq_params).take(eq_params.len() as int) =~= vv(eq_params));
    }
    let lim: i64 = if query.limit >= 1 {
        query.limit as i64
    } else {
        1
    };
    let ghost before_lim = params@.map_values(|x: SqlParam| x@);
    params.push(SqlParam::Int(lim));
    proof {
        assert(params@.map_values(|x: SqlParam| x@) =~= before_lim.push(SqlParamView::Int(lim)));
        let pp = plan_params(tv, query.limit);
        let hd = if p.fts.len() > 0 {
            seq![SqlParamView::Text(join(p.fts, seq![' ']))]
        } else {
            Seq::empty()
        };
        assert(head =~= hd);
        assert(params@.map_values(|x: SqlParam| x@) =~= pp);
    }
    SearchPlan { sql: string_of(&sql), params }
}

/// The field a term is scoped to (`None` for text and phrases).
pub open spec fn term_field(t: TermView) -> Option<FieldScope> {
    match t {
        TermView::Field(f, _) => Some(f),
        _ => None,
    }
}

/// The characters a term holds.
pub open spec fn term_value(t: TermView) -> Seq<char> {
    match t {
        TermView::Text(v) => v,
        TermView::Phrase(v) => v,
        TermView::Field(_, v) => v,
    }
}

/// Two terms of the same field (or both unscoped), both long enough for
/// the trigram index or both too short.
pub open spec fn same_shape(a: TermView, b: TermView) -> bool {
    &&& term_field(a) == term_field(b)
    &&& (term_value(a).len() >= TRIGRAM_MIN) == (term_value(b).len() >= TRIGRAM_MIN)
}

proof fn lemma_parts_same_shape(a: Seq<TermView>, b: Seq<TermView>)
    requires
        a.len() == b.len(),
        forall|i: int| 0 <= i < a.len() ==> same_shape(#[trigger] a[i], b[i]),
    ensures
        collect_parts(a).fts.len() == collect_parts(b).fts.len(),
        collect_parts(a).like_conds == collect_parts(b).like_conds,
        collect_parts(a).eq_conds == collect_parts(b).eq_conds,
    decreases a.len(),
{
    if a.len() > 0 {
        let n = a.len() - 1;
        assert(same_shape(a[n], b[n]));
        lemma_parts_same_shape(a.drop_last(), b.drop_last());
        assert forall|i: int| 0 <= i < a.drop_last().len() implies same_shape(
            #[trigger] a.drop_last()[i],
            b.drop_last()[i],
        ) by {
            assert(same_shape(a[i], b[i]));
        }
    }
}

/// The statement a search runs depends only on the shape of its terms,
/// never on the characters typed: terms of the same fields and the same
/// length class give the same SQL text, and what was typed reaches the
/// database only as bound values.
pub proof fn law_sql_text_independent_of_values(a: Seq<TermView>, b: Seq<TermView>)
    requires
        a.len() == b.len(),
        forall|i: int| 0 <= i < a.len() ==> same_shape(#[trigger] a[i], b[i]),
    ensures
        plan_sql(a) == plan_sql(b),
{
    lemma_parts_same_shape(a, b);
}

/// The column that a `type:` or `year:` term compares with its value.
pub open spec fn equality_column(t: TermView) -> Seq<char> {
    match t {
        TermView::Field(FieldScope::Type, _) => "i.item_type = ?"@,
        _ => "i.year = ?"@,
    }
}

pub open spec fn is_type_or_year(t: TermView) -> bool {
    t matches TermView::Field(FieldScope::Type, _) || t matches TermView::Field(FieldScope::Year, _)
}

proof fn lemma_equality_parts(ts: Seq<TermView>)
    requires
        forall|k: int| 0 <= k < ts.len() ==> is_type_or_year(#[trigger] ts[k]),
    ensures
        collect_parts(ts).fts.len() == 0,
        collect_parts(ts).like_conds.len() == 0,
        collect_parts(ts).like_params.len() == 0,
        collect_parts(ts).eq_conds == Seq::new(ts.len(), |k: int| equality_column(ts[k])),
        collect_parts(ts).eq_params == Seq::new(ts.len(), |k: int| term_value(ts[k])),
    decreases ts.len(),
{
    if ts.len() > 0 {
        let init = ts.drop_last();
        assert forall|k: int| 0 <= k < init.len() implies is_type_or_year(#[trigger] init[k]) by {
            assert(init[k] == ts[k]);
        }
        lemma_equality_parts(init);
        assert(is_type_or_year(ts.last()));
        assert(collect_parts(ts).eq_conds =~= Seq::new(ts.len(), |k: int| equality_column(ts[k])));
        assert(collect_parts(ts).eq_params =~= Seq::new(ts.len(), |k: int| term_value(ts[k])));
    } else {
        assert(collect_parts(ts).eq_conds =~= Seq::new(ts.len(), |k: int| equality_column(ts[k])));
        assert(collect_parts(ts).eq_params =~= Seq::new(ts.len(), |k: int| term_value(ts[k])));
    }
}

/// A query made only of `type:` and `year:` terms filters each term's own
/// column: `type:v` adds `i.item_type = ?` and `year:v` adds `i.year = ?`,
/// in term order, each bound to its value, on the plain item listing; no
/// other condition is added.
pub proof fn law_type_and_year_filter_their_columns(ts: Seq<TermView>, limit: u32)
    requires
        ts.len() > 0,
        forall|k: int| 0 <= k < ts.len() ==> is_type_or_year(#[trigger] ts[k]),
    ensures
        plan_sql(ts) == like_select() + and_conds(
            Seq::new(ts.len(), |k: int| equality_column(ts[k])),
        ) + " ORDER BY i.year DESC, i.title ASC LIMIT ?"@,
        plan_params(ts, limit) == texts(Seq::new(ts.len(), |k: int| term_value(ts[k]))) + seq![
            SqlParamView::Int(
                if limit >= 1 {
                    limit as i64
                } else {
                    1
                },
            ),
        ],
{
    lemma_equality_parts(ts);
    let p = collect_parts(ts);
    assert(p.like_conds + p.eq_conds =~= p.eq_conds);
    assert(texts(p.like_params) =~= Seq::<SqlParamView>::empty());
    assert(plan_params(ts, limit) =~= texts(p.eq_params) + seq![
        SqlParamView::Int(
            if limit >= 1 {
                limit as i64
            } else {
                1
            },
        ),
    ]);
}

/// The `i.year` column is compared only by `year:` terms: in every query,
/// each `i.year = ?` condition comes from a `year:` term whose value it is
/// bound to, and each `type:` term binds its value to `i.item_type = ?`.
pub proof fn law_equalities_come_from_their_terms(ts: Seq<TermView>)
    ensures
        collect_parts(ts).eq_conds.len() == collect_parts(ts).eq_params.len(),
        forall|j: int|
            0 <= j < collect_parts(ts).eq_conds.len() && collect_parts(ts).eq_conds[j]
                == "i.year = ?"@ ==> exists|k: int|
                0 <= k < ts.len() && ts[k] == TermView::Field(
                    FieldScope::Year,
                    collect_parts(ts).eq_params[j],
                ),
        forall|j: int|
            0 <= j < collect_parts(ts).eq_conds.len() && collect_parts(ts).eq_conds[j]
                == "i.item_type = ?"@ ==> exists|k: int|
                0 <= k < ts.len() && ts[k] == TermView::Field(
                    FieldScope::Type,
                    collect_parts(ts).eq_params[j],
                ),
        forall|k: int, v: Seq<char>|
            0 <= k < ts.len() && ts[k] == TermView::Field(FieldScope::Type, v) ==> exists|j: int|
                0 <= j < collect_parts(ts).eq_conds.len() && collect_parts(ts).eq_conds[j]
                    == "i.item_type = ?"@ && collect_parts(ts).eq_params[j] == v,
    decreases ts.len(),
{
    reveal_strlit("i.year = ?");
    reveal_strlit("i.item_type = ?");
    reveal_strlit("l.display_name LIKE '%' || ? || '%' ESCAPE '\\'");
    if ts.len() > 0 {
        let init = ts.drop_last();
        law_equalities_come_from_their_terms(init);
        let p0 = collect_parts(init);
        let p = collect_parts(ts);
        let n = ts.len() - 1;
        assert(ts[n] == ts.last());
        assert forall|j: int|
            0 <= j < p.eq_conds.len() && p.eq_conds[j] == "i.year = ?"@ implies exists|k: int|
                0 <= k < ts.len() && ts[k] == TermView::Field(FieldScope::Year, p.eq_params[j]) by {
            if j < p0.eq_conds.len() {
                let k = choose|k: int|
                    0 <= k < init.len() && init[k] == TermView::Field(FieldScope::Year, p0.eq_params[j]);
                assert(ts[k] == init[k]);
            } else {
                assert(j == p0.eq_conds.len());
                assert(term_part(ts[n]) == Part::Eq(p.eq_conds[j], p.eq_params[j]));
                assert("i.year = ?"@.len() == 10);
                assert("i.item_type = ?"@.len() == 15);
                assert("l.display_name LIKE '%' || ? || '%' ESCAPE '\\'"@.len() > 15);
                assert(ts[n] == TermView::Field(FieldScope::Year, p.eq_params[j]));
            }
        }
        assert forall|j: int|
            0 <= j < p.eq_conds.len() && p.eq_conds[j] == "i.item_type = ?"@ implies exists|k: int|
                0 <= k < ts.len() && ts[k] == TermView::Field(FieldScope::Type, p.eq_params[j]) by {
            if j < p0.eq_conds.len() {
                let k = choose|k: int|
                    0 <= k < init.len() && init[k] == TermView::Field(FieldScope::Type, p0.eq_params[j]);
                assert(ts[k] == init[k]);
            } else {
                assert(j == p0.eq_conds.len());
                assert(term_part(ts[n]) == Part::Eq(p.eq_conds[j], p.eq_params[j]));
                assert("i.year = ?"@.len() == 10);
                assert("i.item_type = ?"@.len() == 15);
                assert("l.display_name LIKE '%' || ? || '%' ESCAPE '\\'"@.len() > 15);
                assert(ts[n] == TermView::Field(FieldScope::Type, p.eq_params[j]));
            }
        }
        assert forall|k: int, v: Seq<char>|
            0 <= k < ts.len() && ts[k] == TermView::Field(FieldScope::Type, v) implies exists|j: int|
                0 <= j < p.eq_conds.len() && p.eq_conds[j] == "i.item_type = ?"@ && p.eq_params[j]
                    == v by {
            if k < n {
                assert(init[k] == ts[k]);
                let j = choose|j: int|
                    0 <= j < p0.eq_conds.len() && p0.eq_conds[j] == "i.item_type = ?"@
                        && p0.eq_params[j] == v;
                assert(p.eq_conds[j] == p0.eq_conds[j]);
                assert(p.eq_params[j] == p0.eq_params[j]);
            } else {
                let j = p0.eq_conds.len() as int;
                assert(p.eq_conds[j] == "i.item_type = ?"@);
                assert(p.eq_params[j] == v);
            }
        }
    }
}

} // verus!
