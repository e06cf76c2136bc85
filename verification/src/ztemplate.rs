//! Zotero 7 filename templates (`{{...}}`), as Zotero's own attachment
//! renaming writes them:
//!
//! - `{{if cond}}...{{elseif cond}}...{{else}}...{{endif}}`, nestable;
//! - conditions `field == "value"`, `field != "value"` or a bare `field`
//!   (true when the value is not blank);
//! - field expressions with attributes, such as
//!   `{{authors max="1" initialize="given"}}` or
//!   `{{date replaceFrom="[^0-9].*" replaceTo="" regexOpts="g"}}`.
//!
//! Field values come from the `data` object of the item's stored JSON, with
//! the indexed columns of the item as fallbacks.

use crate::json::{
    entries_view, get_member, items_view, json_parse, json_view, lemma_entries_view,
    lemma_items_view, member, parse_json, str_value, text_value, value_str, value_text, Json, JsonV,
};
use crate::models::IndexedItem;
use crate::numbers::{parse_usize_chars, parse_usize_spec};
use crate::text::{
    char_vec2, chars_eq, chars_of, collapse, collapse_chars, find, find_chars, find_from,
    find_from_chars, first_ws, first_ws_chars, has_char, has_char_chars, join, join_chars,
    lemma_find_from_props, lemma_first_ws, matches_at, push_all, replace_all, replace_chars,
    replace_first, replace_first_chars, slice_chars, str_replace, str_replace_chars, starts_with, starts_with_chars, string_of,
    trim, trim_chars, trim_start, trim_start_chars, words, words_of, Trim,
};
use vstd::prelude::*;

verus! {

// ---------------------------------------------------------------------
// The template language
// ---------------------------------------------------------------------

/// What the first word of a `{{...}}` tag names.
#[derive(Clone, Copy, PartialEq, Eq, Structural)]
pub enum TagKind {
    If,
    ElseIf,
    Else,
    EndIf,
    Other,
}

/// A condition of `{{if ...}}` or `{{elseif ...}}`.
pub ghost enum CondV {
    Truthy(Seq<char>),
    Eq { field: Seq<char>, value: Seq<char>, negated: bool },
}

/// A field expression: a name and its `key="value"` attributes.
pub ghost struct FieldV {
    pub name: Seq<char>,
    pub attrs: Seq<(Seq<char>, Seq<char>)>,
}

/// A parsed template node.
pub ghost enum NodeV {
    Text(Seq<char>),
    Field(FieldV),
    If(Seq<BranchV>),
}

/// One branch of a conditional; `cond` is `None` for `{{else}}`.
pub ghost struct BranchV {
    pub cond: Option<CondV>,
    pub body: Seq<NodeV>,
}

pub open spec fn open_braces() -> Seq<char> {
    seq!['{', '{']
}

pub open spec fn close_braces() -> Seq<char> {
    seq!['}', '}']
}

/// The first word of a trimmed tag body.
pub open spec fn head_word(inner: Seq<char>) -> Seq<char> {
    inner.take(first_ws(inner))
}

pub open spec fn tag_kind(head: Seq<char>) -> TagKind {
    if head == seq!['i', 'f'] {
        TagKind::If
    } else if head == seq!['e', 'l', 's', 'e', 'i', 'f'] {
        TagKind::ElseIf
    } else if head == seq!['e', 'l', 's', 'e'] {
        TagKind::Else
    } else if head == seq!['e', 'n', 'd', 'i', 'f'] {
        TagKind::EndIf
    } else {
        TagKind::Other
    }
}

/// The trimmed text between `{{` at `open` and `}}` at `close`.
pub open spec fn tag_inner(s: Seq<char>, open: int, close: int) -> Seq<char> {
    trim(s.subrange(open + 2, close), Trim::Ws)
}

/// `str::split_once`.
pub open spec fn split_once(s: Seq<char>, p: Seq<char>) -> Option<(Seq<char>, Seq<char>)> {
    match find(s, p) {
        Some(k) => Some((s.take(k), s.skip(k + p.len()))),
        None => None,
    }
}

/// A value in matching double or single quotes loses them.
pub open spec fn unquote(s: Seq<char>) -> Seq<char> {
    if s.len() >= 2 && ((s[0] == '"' && s.last() == '"') || (s[0] == '\'' && s.last() == '\'')) {
        s.subrange(1, s.len() - 1)
    } else {
        s
    }
}

/// `field != "v"` is tried before `field == "v"`; anything else is a bare
/// field.
pub open spec fn parse_cond(s: Seq<char>) -> CondV {
    match split_once(s, seq!['!', '=']) {
        Some((l, r)) => CondV::Eq {
            field: trim(l, Trim::Ws),
            value: unquote(trim(r, Trim::Ws)),
            negated: true,
        },
        None => match split_once(s, seq!['=', '=']) {
            Some((l, r)) => CondV::Eq {
                field: trim(l, Trim::Ws),
                value: unquote(trim(r, Trim::Ws)),
                negated: false,
            },
            None => CondV::Truthy(trim(s, Trim::Ws)),
        },
    }
}

/// The `key="value"` (or `key='value'`) pairs of `r`, read left to right
/// until the first one that is not well formed.
pub open spec fn parse_attrs(r: Seq<char>) -> Seq<(Seq<char>, Seq<char>)>
    decreases r.len(),
{
    if r.len() == 0 {
        Seq::empty()
    } else {
        match find(r, seq!['=']) {
            None => Seq::empty(),
            Some(eq) => {
                let key = trim(r.take(eq), Trim::Ws);
                let r2 = trim_start(r.skip(eq + 1), Trim::Ws);
                if r2.len() == 0 || (r2[0] != '"' && r2[0] != '\'') {
                    Seq::empty()
                } else {
                    let body = r2.skip(1);
                    match find(body, seq![r2[0]]) {
                        None => Seq::empty(),
                        Some(end) => {
                            proof {
                                lemma_find_from_props(r, seq!['='], 0);
                                lemma_find_from_props(body, seq![r2[0]], 0);
                                crate::text::lemma_trim_start_len(r.skip(eq + 1), Trim::Ws);
                                crate::text::lemma_trim_start_len(body.skip(end + 1), Trim::Ws);
                            }
                            seq![(key, body.take(end))] + parse_attrs(
                                trim_start(body.skip(end + 1), Trim::Ws),
                            )
                        },
                    }
                }
            },
        }
    }
}

/// A field tag: the name runs to the first whitespace; the attributes follow.
pub open spec fn parse_field(inner: Seq<char>) -> FieldV {
    let k = first_ws(inner);
    let rest = if k < inner.len() {
        inner.skip(k + 1)
    } else {
        Seq::empty()
    };
    FieldV { name: inner.take(k), attrs: parse_attrs(trim(rest, Trim::Ws)) }
}

/// From `q`, the position of the `{{` of the `elseif`, `else` or `endif`
/// tag that closes the current block (nested `if`s counted with `depth`),
/// and which tag it is; the end of `s` and `None` when there is none.
pub open spec fn scan(s: Seq<char>, q: int, depth: nat) -> (int, Option<TagKind>)
    decreases s.len() - q,
{
    if q < 0 || q > s.len() {
        (s.len() as int, None)
    } else {
        match find_from(s, open_braces(), q) {
            None => (s.len() as int, None),
            Some(open) => match find_from(s, close_braces(), open + 2) {
                None => (s.len() as int, None),
                Some(close) => {
                    proof {
                        lemma_find_from_props(s, open_braces(), q);
                        lemma_find_from_props(s, close_braces(), open + 2);
                    }
                    let h = tag_kind(head_word(tag_inner(s, open, close)));
                    if h == TagKind::If {
                        scan(s, close + 2, depth + 1)
                    } else if h == TagKind::EndIf {
                        if depth == 0 {
                            (open, Some(TagKind::EndIf))
                        } else {
                            scan(s, close + 2, (depth - 1) as nat)
                        }
                    } else if h == TagKind::ElseIf || h == TagKind::Else {
                        if depth == 0 {
                            (open, Some(h))
                        } else {
                            scan(s, close + 2, depth)
                        }
                    } else {
                        scan(s, close + 2, depth)
                    }
                },
            },
        }
    }
}

pub proof fn lemma_scan(s: Seq<char>, q: int, depth: nat)
    requires
        0 <= q <= s.len(),
    ensures
        q <= scan(s, q, depth).0 <= s.len(),
        scan(s, q, depth).1 is None ==> scan(s, q, depth).0 == s.len(),
        scan(s, q, depth).1 matches Some(h) ==> {
            let end = scan(s, q, depth).0;
            &&& matches_at(s, open_braces(), end)
            &&& find_from(s, close_braces(), end + 2) matches Some(c) && end + 2 <= c && c + 2
                <= s.len() && h == tag_kind(head_word(tag_inner(s, end, c)))
            &&& (h == TagKind::ElseIf || h == TagKind::Else || h == TagKind::EndIf)
        },
    decreases s.len() - q,
{
    lemma_find_from_props(s, open_braces(), q);
    if let Some(open) = find_from(s, open_braces(), q) {
        lemma_find_from_props(s, close_braces(), open + 2);
        if let Some(close) = find_from(s, close_braces(), open + 2) {
            let h = tag_kind(head_word(tag_inner(s, open, close)));
            if h == TagKind::If {
                lemma_scan(s, close + 2, depth + 1);
            } else if h == TagKind::EndIf {
                if depth != 0 {
                    lemma_scan(s, close + 2, (depth - 1) as nat);
                }
            } else if h == TagKind::ElseIf || h == TagKind::Else {
                if depth != 0 {
                    lemma_scan(s, close + 2, depth);
                }
            } else {
                lemma_scan(s, close + 2, depth);
            }
        }
    }
}

/// Where the conditional whose first body starts at `q` ends: just after
/// its `{{endif}}`, or the end of `s` when it is not closed.
pub open spec fn chain_end(s: Seq<char>, q: int) -> int
    decreases s.len() - q,
{
    if q < 0 || q > s.len() {
        s.len() as int
    } else {
        let (end, stop) = scan(s, q, 0);
        proof {
            lemma_scan(s, q, 0);
        }
        match stop {
            Some(h) => match find_from(s, close_braces(), end + 2) {
                Some(close) => if h == TagKind::EndIf {
                    close + 2
                } else {
                    chain_end(s, close + 2)
                },
                None => s.len() as int,
            },
            None => s.len() as int,
        }
    }
}

pub proof fn lemma_chain_end(s: Seq<char>, q: int)
    requires
        0 <= q <= s.len(),
    ensures
        q <= chain_end(s, q) <= s.len(),
    decreases s.len() - q,
{
    lemma_scan(s, q, 0);
    let (end, stop) = scan(s, q, 0);
    if let Some(h) = stop {
        if let Some(close) = find_from(s, close_braces(), end + 2) {
            if h != TagKind::EndIf {
                lemma_chain_end(s, close + 2);
            }
        }
    }
}

/// The nodes of `s` from position `p` to its end.
pub open spec fn parse_from(s: Seq<char>, p: int) -> Seq<NodeV>
    decreases s.len() - p, 1int,
{
    if p < 0 || p > s.len() {
        Seq::empty()
    } else {
        match find_from(s, open_braces(), p) {
            None => if p < s.len() {
                seq![NodeV::Text(s.skip(p))]
            } else {
                Seq::empty()
            },
            Some(open) => {
                let pre: Seq<NodeV> = if open > p {
                    seq![NodeV::Text(s.subrange(p, open))]
                } else {
                    Seq::empty()
                };
                match find_from(s, close_braces(), open + 2) {
                    None => pre.push(NodeV::Text(s.skip(open))),
                    Some(close) => {
                        proof {
                            lemma_find_from_props(s, open_braces(), p);
                            lemma_find_from_props(s, close_braces(), open + 2);
                            lemma_chain_end(s, close + 2);
                        }
                        let inner = tag_inner(s, open, close);
                        let h = tag_kind(head_word(inner));
                        if h == TagKind::If {
                            let cond = parse_cond(trim(inner.skip(2), Trim::Ws));
                            pre.push(NodeV::If(parse_chain(s, close + 2, Some(cond)))) + parse_from(
                                s,
                                chain_end(s, close + 2),
                            )
                        } else if h == TagKind::Other {
                            pre.push(NodeV::Field(parse_field(inner))) + parse_from(s, close + 2)
                        } else {
                            pre + parse_from(s, close + 2)
                        }
                    },
                }
            },
        }
    }
}

/// The branches of the conditional whose first body starts at `q`, the
/// first of them guarded by `cond`.
pub open spec fn parse_chain(s: Seq<char>, q: int, cond: Option<CondV>) -> Seq<BranchV>
    decreases s.len() - q, 2int,
{
    if q < 0 || q > s.len() {
        Seq::empty()
    } else {
        let (end, stop) = scan(s, q, 0);
        proof {
            lemma_scan(s, q, 0);
        }
        let branch = BranchV { cond, body: parse_from(s.subrange(q, end), 0) };
        match stop {
            Some(h) => match find_from(s, close_braces(), end + 2) {
                Some(close) => if h == TagKind::ElseIf {
                    let c = parse_cond(trim(tag_inner(s, end, close).skip(6), Trim::Ws));
                    seq![branch] + parse_chain(s, close + 2, Some(c))
                } else if h == TagKind::Else {
                    seq![branch] + parse_chain(s, close + 2, None)
                } else {
                    seq![branch]
                },
                None => seq![branch],
            },
            None => seq![branch],
        }
    }
}

/// A whole template, parsed.
pub open spec fn parse_template(s: Seq<char>) -> Seq<NodeV> {
    parse_from(s, 0)
}

// ---------------------------------------------------------------------
// Parsing
// ---------------------------------------------------------------------

enum Cond {
    Truthy(Vec<char>),
    Eq { field: Vec<char>, value: Vec<char>, negated: bool },
}

struct FieldExpr {
    name: Vec<char>,
    attrs: Vec<(Vec<char>, Vec<char>)>,
}

enum Node {
    Text(Vec<char>),
    Field(FieldExpr),
    If(Vec<Branch>),
}

struct Branch {
    cond: Option<Cond>,
    body: Vec<Node>,
}

spec fn cond_view(c: Cond) -> CondV {
    match c {
        Cond::Truthy(f) => CondV::Truthy(f@),
        Cond::Eq { field, value, negated } => CondV::Eq { field: field@, value: value@, negated },
    }
}

spec fn opt_cond_view(c: Option<Cond>) -> Option<CondV> {
    match c {
        Some(c) => Some(cond_view(c)),
        None => None,
    }
}

spec fn attrs_view(a: Seq<(Vec<char>, Vec<char>)>) -> Seq<(Seq<char>, Seq<char>)> {
    a.map_values(|p: (Vec<char>, Vec<char>)| (p.0@, p.1@))
}

spec fn field_view(f: FieldExpr) -> FieldV {
    FieldV { name: f.name@, attrs: attrs_view(f.attrs@) }
}

spec fn node_view(n: Node) -> NodeV
    decreases n,
{
    match n {
        Node::Text(t) => NodeV::Text(t@),
        Node::Field(f) => NodeV::Field(field_view(f)),
        Node::If(bs) => NodeV::If(branches_view(bs@)),
    }
}

spec fn branches_view(bs: Seq<Branch>) -> Seq<BranchV>
    decreases bs,
{
    if bs.len() == 0 {
        Seq::empty()
    } else {
        branches_view(bs.drop_last()).push(
            BranchV { cond: opt_cond_view(bs.last().cond), body: nodes_view(bs.last().body@) },
        )
    }
}

spec fn nodes_view(ns: Seq<Node>) -> Seq<NodeV>
    decreases ns,
{
    if ns.len() == 0 {
        Seq::empty()
    } else {
        nodes_view(ns.drop_last()).push(node_view(ns.last()))
    }
}

proof fn lemma_nodes_view_append(a: Seq<Node>, b: Seq<Node>)
    ensures
        nodes_view(a + b) == nodes_view(a) + nodes_view(b),
    decreases b.len(),
{
    if b.len() == 0 {
        assert(a + b =~= a);
        assert(nodes_view(b) =~= Seq::<NodeV>::empty());
        assert(nodes_view(a) + nodes_view(b) =~= nodes_view(a));
    } else {
        lemma_nodes_view_append(a, b.drop_last());
        assert((a + b).drop_last() =~= a + b.drop_last());
        assert((a + b).last() == b.last());
        assert(nodes_view(a) + nodes_view(b) =~= (nodes_view(a) + nodes_view(b.drop_last())).push(
            node_view(b.last()),
        ));
    }
}

proof fn lemma_nodes_view_push(a: Seq<Node>, n: Node)
    ensures
        nodes_view(a.push(n)) == nodes_view(a).push(node_view(n)),
        nodes_view(Seq::<Node>::empty()) == Seq::<NodeV>::empty(),
{
    assert(a.push(n).drop_last() =~= a);
    assert(a.push(n).last() == n);
}

proof fn lemma_branches_view_push(a: Seq<Branch>, b: Branch)
    ensures
        branches_view(a.push(b)) == branches_view(a).push(
            BranchV { cond: opt_cond_view(b.cond), body: nodes_view(b.body@) },
        ),
{
    assert(a.push(b).drop_last() =~= a);
}

/// The first word of `inner` as a tag kind.
fn tag_of(inner: &Vec<char>) -> (r: TagKind)
    ensures
        r == tag_kind(head_word(inner@)),
{
    let k = first_ws_chars(inner);
    proof {
        lemma_first_ws(inner@);
    }
    let ghost h = inner@.take(k as int);
    if k == 2 && inner[0] == 'i' && inner[1] == 'f' {
        assert(h =~= seq!['i', 'f']);
        return TagKind::If;
    }
    if k == 6 && inner[0] == 'e' && inner[1] == 'l' && inner[2] == 's' && inner[3] == 'e'
        && inner[4] == 'i' && inner[5] == 'f' {
        assert(h =~= seq!['e', 'l', 's', 'e', 'i', 'f']);
        return TagKind::ElseIf;
    }
    if k == 4 && inner[0] == 'e' && inner[1] == 'l' && inner[2] == 's' && inner[3] == 'e' {
        assert(h =~= seq!['e', 'l', 's', 'e']);
        return TagKind::Else;
    }
    if k == 5 && inner[0] == 'e' && inner[1] == 'n' && inner[2] == 'd' && inner[3] == 'i'
        && inner[4] == 'f' {
        assert(h =~= seq!['e', 'n', 'd', 'i', 'f']);
        return TagKind::EndIf;
    }
    proof {
        assert(h.len() == k);
        assert(forall|i: int| 0 <= i < k ==> h[i] == inner@[i]);
        let w1 = seq!['i', 'f'];
        let w2 = seq!['e', 'l', 's', 'e', 'i', 'f'];
        let w3 = seq!['e', 'l', 's', 'e'];
        let w4 = seq!['e', 'n', 'd', 'i', 'f'];
        assert(w1.len() == 2 && w1[0] == 'i' && w1[1] == 'f');
        assert(w2.len() == 6 && w2[0] == 'e' && w2[1] == 'l' && w2[2] == 's' && w2[3] == 'e'
            && w2[4] == 'i' && w2[5] == 'f');
        assert(w3.len() == 4 && w3[0] == 'e' && w3[1] == 'l' && w3[2] == 's' && w3[3] == 'e');
        assert(w4.len() == 5 && w4[0] == 'e' && w4[1] == 'n' && w4[2] == 'd' && w4[3] == 'i'
            && w4[4] == 'f');
        assert(h != w1);
        assert(h != w2);
        assert(h != w3);
        assert(h != w4);
    }
    TagKind::Other
}

fn split_once_chars(s: &Vec<char>, p: &Vec<char>) -> (res: Option<(Vec<char>, Vec<char>)>)
    ensures
        match res {
            Some((l, r)) => split_once(s@, p@) == Some((l@, r@)),
            None => split_once(s@, p@) is None,
        },
{
    match find_chars(s, p) {
        None => None,
        Some(k) => {
            proof {
                lemma_find_from_props(s@, p@, 0);
                assert(matches_at(s@, p@, k as int));
                assert(k + p@.len() <= s@.len());
            }
            let l = slice_chars(s, 0, k);
            let plen = p.len();
            assert(k + plen <= s.len());
            let r = slice_chars(s, k + plen, s.len());
            assert(l@ =~= s@.take(k as int));
            assert(r@ =~= s@.skip(k + p@.len()));
            Some((l, r))
        },
    }
}

fn unquote_chars(s: &Vec<char>) -> (res: Vec<char>)
    ensures
        res@ == unquote(s@),
{
    let n = s.len();
    if n >= 2 && ((s[0] == '"' && s[n - 1] == '"') || (s[0] == '\'' && s[n - 1] == '\'')) {
        slice_chars(s, 1, n - 1)
    } else {
        slice_chars(s, 0, n)
    }
}

fn parse_cond_chars(s: &Vec<char>) -> (res: Cond)
    ensures
        cond_view(res) == parse_cond(s@),
{
    let ne = char_vec2('!', '=');
    match split_once_chars(s, &ne) {
        Some((l, r)) => {
            let rt = trim_chars(&r, Trim::Ws);
            return Cond::Eq {
                field: trim_chars(&l, Trim::Ws),
                value: unquote_chars(&rt),
                negated: true,
            };
        },
        None => {},
    }
    let eq = char_vec2('=', '=');
    match split_once_chars(s, &eq) {
        Some((l, r)) => {
            let rt = trim_chars(&r, Trim::Ws);
            Cond::Eq { field: trim_chars(&l, Trim::Ws), value: unquote_chars(&rt), negated: false }
        },
        None => Cond::Truthy(trim_chars(s, Trim::Ws)),
    }
}

fn parse_attrs_chars(r: &Vec<char>) -> (res: Vec<(Vec<char>, Vec<char>)>)
    ensures
        attrs_view(res@) == parse_attrs(r@),
    decreases r.len(),
{
    let mut out: Vec<(Vec<char>, Vec<char>)> = Vec::new();
    if r.len() == 0 {
        assert(attrs_view(out@) =~= parse_attrs(r@));
        return out;
    }
    let eqv = crate::text::char_vec1('=');
    let eq = match find_chars(r, &eqv) {
        None => {
            assert(attrs_view(out@) =~= parse_attrs(r@));
            return out;
        },
        Some(eq) => eq,
    };
    proof {
        lemma_find_from_props(r@, eqv@, 0);
        assert(matches_at(r@, eqv@, eq as int));
    }
    let head = slice_chars(r, 0, eq);
    let key = trim_chars(&head, Trim::Ws);
    let after = slice_chars(r, eq + 1, r.len());
    let r2 = trim_start_chars(&after, Trim::Ws);
    assert(head@ =~= r@.take(eq as int));
    assert(after@ =~= r@.skip(eq + 1));
    if r2.len() == 0 || (r2[0] != '"' && r2[0] != '\'') {
        assert(attrs_view(out@) =~= parse_attrs(r@));
        return out;
    }
    let q = r2[0];
    let body = slice_chars(&r2, 1, r2.len());
    assert(body@ =~= r2@.skip(1));
    let qv = crate::text::char_vec1(q);
    let end = match find_chars(&body, &qv) {
        None => {
            assert(attrs_view(out@) =~= parse_attrs(r@));
            return out;
        },
        Some(end) => end,
    };
    proof {
        lemma_find_from_props(body@, qv@, 0);
        assert(matches_at(body@, qv@, end as int));
        crate::text::lemma_trim_start_len(after@, Trim::Ws);
        crate::text::lemma_trim_start_len(body@.skip(end + 1), Trim::Ws);
    }
    let value = slice_chars(&body, 0, end);
    let tail0 = slice_chars(&body, end + 1, body.len());
    let tail = trim_start_chars(&tail0, Trim::Ws);
    assert(value@ =~= body@.take(end as int));
    assert(tail0@ =~= body@.skip(end + 1));
    let mut rest = parse_attrs_chars(&tail);
    out.push((key, value));
    out.append(&mut rest);
    proof {
        let x = seq![(key@, value@)];
        assert(attrs_view(out@) =~= x + parse_attrs(tail@));
    }
    out
}

fn parse_field_chars(inner: &Vec<char>) -> (res: FieldExpr)
    ensures
        field_view(res) == parse_field(inner@),
{
    let k = first_ws_chars(inner);
    proof {
        lemma_first_ws(inner@);
    }
    let name = slice_chars(inner, 0, k);
    let rest = if k < inner.len() {
        slice_chars(inner, k + 1, inner.len())
    } else {
        Vec::new()
    };
    assert(name@ =~= inner@.take(k as int));
    assert(rest@ =~= (if k < inner@.len() {
        inner@.skip(k + 1)
    } else {
        Seq::<char>::empty()
    }));
    let rt = trim_chars(&rest, Trim::Ws);
    let attrs = parse_attrs_chars(&rt);
    FieldExpr { name, attrs }
}

/// The braces that open and close a tag.
fn braces() -> (res: (Vec<char>, Vec<char>))
    ensures
        res.0@ == open_braces(),
        res.1@ == close_braces(),
{
    (char_vec2('{', '{'), char_vec2('}', '}'))
}

fn scan_chars(s: &Vec<char>, q: usize) -> (res: (usize, Option<TagKind>))
    requires
        q <= s.len(),
    ensures
        (res.0 as int, res.1) == scan(s@, q as int, 0),
{
    let (ob, cb) = braces();
    let mut pos = q;
    let mut depth: usize = 0;
    loop
        invariant
            q <= pos <= s.len(),
            depth <= pos,
            ob@ == open_braces(),
            cb@ == close_braces(),
            scan(s@, pos as int, depth as nat) == scan(s@, q as int, 0),
        decreases s.len() - pos,
    {
        let open = match find_from_chars(s, &ob, pos) {
            None => return (s.len(), None),
            Some(o) => o,
        };
        proof {
            lemma_find_from_props(s@, ob@, pos as int);
            assert(matches_at(s@, ob@, open as int));
        }
        let close = match find_from_chars(s, &cb, open + 2) {
            None => return (s.len(), None),
            Some(c) => c,
        };
        proof {
            lemma_find_from_props(s@, cb@, open + 2);
            assert(matches_at(s@, cb@, close as int));
        }
        let sub = slice_chars(s, open + 2, close);
        let inner = trim_chars(&sub, Trim::Ws);
        let h = tag_of(&inner);
        assert(sub@ =~= s@.subrange(open + 2, close as int));
        if h == TagKind::If {
            depth = depth + 1;
        } else if h == TagKind::EndIf {
            if depth == 0 {
                return (open, Some(TagKind::EndIf));
            }
            depth = depth - 1;
        } else if h == TagKind::ElseIf || h == TagKind::Else {
            if depth == 0 {
                return (open, Some(h));
            }
        }
        pos = close + 2;
    }
}

fn parse_from_chars(s: &Vec<char>, p: usize) -> (res: Vec<Node>)
    requires
        p <= s.len(),
    ensures
        nodes_view(res@) == parse_from(s@, p as int),
    decreases s.len() - p, 1int,
{
    let (ob, cb) = braces();
    let mut out: Vec<Node> = Vec::new();
    let open = match find_from_chars(s, &ob, p) {
        None => {
            if p < s.len() {
                let t = slice_chars(s, p, s.len());
                assert(t@ =~= s@.skip(p as int));
                out.push(Node::Text(t));
                proof {
                    lemma_nodes_view_push(Seq::<Node>::empty(), Node::Text(t));
                    assert(out@ =~= Seq::<Node>::empty().push(Node::Text(t)));
                    assert(nodes_view(out@) =~= seq![NodeV::Text(s@.skip(p as int))]);
                }
            } else {
                assert(nodes_view(out@) =~= Seq::<NodeV>::empty());
            }
            return out;
        },
        Some(o) => o,
    };
    proof {
        lemma_find_from_props(s@, ob@, p as int);
        assert(matches_at(s@, ob@, open as int));
    }
    proof {
        assert(nodes_view(Seq::<Node>::empty()) =~= Seq::<NodeV>::empty());
    }
    if open > p {
        let t = slice_chars(s, p, open);
        out.push(Node::Text(t));
        proof {
            lemma_nodes_view_push(Seq::<Node>::empty(), Node::Text(t));
            assert(out@ =~= Seq::<Node>::empty().push(Node::Text(t)));
        }
    }
    let ghost pre: Seq<NodeV> = if open > p {
        seq![NodeV::Text(s@.subrange(p as int, open as int))]
    } else {
        Seq::empty()
    };
    assert(nodes_view(out@) =~= pre);
    let close = match find_from_chars(s, &cb, open + 2) {
        None => {
            let t = slice_chars(s, open, s.len());
            assert(t@ =~= s@.skip(open as int));
            let ghost before = out@;
            out.push(Node::Text(t));
            proof {
                lemma_nodes_view_push(before, Node::Text(t));
            }
            return out;
        },
        Some(c) => c,
    };
    proof {
        lemma_find_from_props(s@, cb@, open + 2);
        assert(matches_at(s@, cb@, close as int));
        lemma_chain_end(s@, close + 2);
    }
    let sub = slice_chars(s, open + 2, close);
    assert(sub@ =~= s@.subrange(open + 2, close as int));
    let inner = trim_chars(&sub, Trim::Ws);
    let h = tag_of(&inner);
    let next: usize;
    if h == TagKind::If {
        proof {
            lemma_first_ws(inner@);
            assert(head_word(inner@).len() == 2);
        }
        let c0 = slice_chars(&inner, 2, inner.len());
        assert(c0@ =~= inner@.skip(2));
        let c1 = trim_chars(&c0, Trim::Ws);
        let cond = parse_cond_chars(&c1);
        let (branches, after) = parse_chain_chars(s, close + 2, Some(cond));
        let ghost before = out@;
        out.push(Node::If(branches));
        proof {
            lemma_nodes_view_push(before, out@.last());
        }
        next = after;
    } else if h == TagKind::Other {
        let f = parse_field_chars(&inner);
        let ghost before = out@;
        out.push(Node::Field(f));
        proof {
            lemma_nodes_view_push(before, out@.last());
        }
        next = close + 2;
    } else {
        next = close + 2;
    }
    let ghost first = out@;
    let mut rest = parse_from_chars(s, next);
    let ghost rest_old = rest@;
    out.append(&mut rest);
    proof {
        lemma_nodes_view_append(first, rest_old);
    }
    out
}

proof fn lemma_branches_view_append(a: Seq<Branch>, b: Seq<Branch>)
    ensures
        branches_view(a + b) == branches_view(a) + branches_view(b),
    decreases b.len(),
{
    if b.len() == 0 {
        assert(a + b =~= a);
        assert(branches_view(b) =~= Seq::<BranchV>::empty());
        assert(branches_view(a) + branches_view(b) =~= branches_view(a));
    } else {
        lemma_branches_view_append(a, b.drop_last());
        assert((a + b).drop_last() =~= a + b.drop_last());
        assert((a + b).last() == b.last());
        let x = BranchV { cond: opt_cond_view(b.last().cond), body: nodes_view(b.last().body@) };
        assert(branches_view(a) + branches_view(b) =~= (branches_view(a) + branches_view(
            b.drop_last(),
        )).push(x));
    }
}

fn parse_chain_chars(s: &Vec<char>, q: usize, cond: Option<Cond>) -> (res: (Vec<Branch>, usize))
    requires
        q <= s.len(),
    ensures
        branches_view(res.0@) == parse_chain(s@, q as int, opt_cond_view(cond)),
        res.1 == chain_end(s@, q as int),
    decreases s.len() - q, 2int,
{
    let (end, stop) = scan_chars(s, q);
    proof {
        lemma_scan(s@, q as int, 0);
    }
    let body_s = slice_chars(s, q, end);
    assert(body_s@ =~= s@.subrange(q as int, end as int));
    let body = parse_from_chars(&body_s, 0);
    let ghost bv = BranchV { cond: opt_cond_view(cond), body: nodes_view(body@) };
    let mut out: Vec<Branch> = Vec::new();
    out.push(Branch { cond, body });
    proof {
        lemma_branches_view_push(Seq::<Branch>::empty(), out@[0]);
        assert(out@ =~= Seq::<Branch>::empty().push(out@[0]));
        assert(branches_view(Seq::<Branch>::empty()) =~= Seq::<BranchV>::empty());
        assert(branches_view(out@) =~= seq![bv]);
    }
    let h = match stop {
        None => return (out, s.len()),
        Some(h) => h,
    };
    let (_, cb) = braces();
    let close = match find_from_chars(s, &cb, end + 2) {
        None => return (out, s.len()),
        Some(c) => c,
    };
    if h == TagKind::ElseIf {
        let sub = slice_chars(s, end + 2, close);
        assert(sub@ =~= s@.subrange(end + 2, close as int));
        let inner = trim_chars(&sub, Trim::Ws);
        proof {
            lemma_first_ws(inner@);
            assert(head_word(inner@).len() == 6);
        }
        let c0 = slice_chars(&inner, 6, inner.len());
        assert(c0@ =~= inner@.skip(6));
        let c1 = trim_chars(&c0, Trim::Ws);
        let c = parse_cond_chars(&c1);
        let (mut rest, after) = parse_chain_chars(s, close + 2, Some(c));
        let ghost first = out@;
        let ghost rest_old = rest@;
        out.append(&mut rest);
        proof {
            lemma_branches_view_append(first, rest_old);
        }
        (out, after)
    } else if h == TagKind::Else {
        let (mut rest, after) = parse_chain_chars(s, close + 2, None);
        let ghost first = out@;
        let ghost rest_old = rest@;
        out.append(&mut rest);
        proof {
            lemma_branches_view_append(first, rest_old);
        }
        (out, after)
    } else {
        (out, close + 2)
    }
}

// ---------------------------------------------------------------------
// What the template reads of an item
// ---------------------------------------------------------------------

/// One entry of the item's `creators` list: its `creatorType`, `name`,
/// `lastName` and `firstName`, each where it is a string.
pub struct RawCreator {
    pub creator_type: Option<String>,
    pub name: Option<String>,
    pub last_name: Option<String>,
    pub first_name: Option<String>,
}

/// The `data` object of an item's stored JSON, as far as templates read
/// it: each entry with its text (a string, or a number as printed), and the
/// `creators` list when it is one.
pub struct TemplateData {
    pub fields: Vec<(String, Option<String>)>,
    pub creators: Option<Vec<RawCreator>>,
}

pub open spec fn opt_view(o: Option<String>) -> Option<Seq<char>> {
    match o {
        Some(s) => Some(s@),
        None => None,
    }
}

/// `creatorType`, `name`, `lastName`, `firstName`.
pub type CreatorV = (Option<Seq<char>>, Option<Seq<char>>, Option<Seq<char>>, Option<Seq<char>>);

pub open spec fn creator_view(c: RawCreator) -> CreatorV {
    (opt_view(c.creator_type), opt_view(c.name), opt_view(c.last_name), opt_view(c.first_name))
}

pub open spec fn fields_view(f: Seq<(String, Option<String>)>) -> Seq<(Seq<char>, Option<Seq<char>>)> {
    f.map_values(|e: (String, Option<String>)| (e.0@, opt_view(e.1)))
}

pub open spec fn creators_view(c: Seq<RawCreator>) -> Seq<CreatorV> {
    c.map_values(|x: RawCreator| creator_view(x))
}

pub ghost struct DataV {
    pub fields: Seq<(Seq<char>, Option<Seq<char>>)>,
    pub creators: Option<Seq<CreatorV>>,
}

impl View for TemplateData {
    type V = DataV;

    open spec fn view(&self) -> DataV {
        DataV {
            fields: fields_view(self.fields@),
            creators: match self.creators {
                Some(c) => Some(creators_view(c@)),
                None => None,
            },
        }
    }
}

/// The `data` object of a stored item JSON: its member `data`, where the
/// text parses.
pub open spec fn stored_data(raw: Seq<char>) -> Option<JsonV> {
    match json_parse(raw) {
        Some(v) => member(v, "data"@),
        None => None,
    }
}

/// Each entry of the data object with its text; nothing when the data is
/// not an object.
pub open spec fn data_fields(d: JsonV) -> Seq<(Seq<char>, Option<Seq<char>>)> {
    match d {
        JsonV::Object(m) => m.map_values(|e: (Seq<char>, JsonV)| (e.0, value_text(e.1))),
        _ => Seq::empty(),
    }
}

/// One element of the `creators` list: the strings among its
/// `creatorType`, `name`, `lastName` and `firstName`.
pub open spec fn creator_entry(c: JsonV) -> CreatorV {
    (
        value_str(member(c, "creatorType"@)),
        value_str(member(c, "name"@)),
        value_str(member(c, "lastName"@)),
        value_str(member(c, "firstName"@)),
    )
}

/// The `creators` list of the data object, where it is an array.
pub open spec fn data_creators(d: JsonV) -> Option<Seq<CreatorV>> {
    match member(d, "creators"@) {
        Some(JsonV::Array(a)) => Some(a.map_values(|c: JsonV| creator_entry(c))),
        _ => None,
    }
}

/// What templates read of an item whose stored JSON is `raw`.
pub open spec fn template_data_spec(raw: Option<Seq<char>>) -> DataV {
    match raw {
        Some(r) => match stored_data(r) {
            Some(d) => DataV { fields: data_fields(d), creators: data_creators(d) },
            None => DataV { fields: Seq::empty(), creators: None },
        },
        None => DataV { fields: Seq::empty(), creators: None },
    }
}

fn read_fields(d: &Json) -> (res: Vec<(String, Option<String>)>)
    ensures
        fields_view(res@) == data_fields(d@),
{
    let mut out: Vec<(String, Option<String>)> = Vec::new();
    match d {
        Json::Object(m) => {
            proof {
                lemma_entries_view(m@);
            }
            let ghost ev = entries_view(m@);
            assert(d@ == JsonV::Object(ev));
            let ghost want = data_fields(d@);
            for i in 0..m.len()
                invariant
                    ev == entries_view(m@),
                    ev.len() == m@.len(),
                    forall|k: int| 0 <= k < m@.len() ==> #[trigger] ev[k] == (m@[k].0@, json_view(m@[k].1)),
                    want == ev.map_values(|e: (Seq<char>, JsonV)| (e.0, value_text(e.1))),
                    out@.len() == i,
                    forall|k: int| 0 <= k < i ==> #[trigger] fields_view(out@)[k] == want[k],
            {
                let t = text_value(&m[i].1);
                let ghost before = out@;
                out.push((m[i].0.clone(), t));
                proof {
                    assert(opt_view(t) == value_text(ev[i as int].1));
                    assert forall|k: int| 0 <= k < i + 1 implies #[trigger] fields_view(out@)[k]
                        == want[k] by {
                        if k < i {
                            assert(out@[k] == before[k]);
                            assert(fields_view(before)[k] == want[k]);
                        }
                    }
                }
            }
            assert(fields_view(out@) =~= want);
            out
        },
        _ => {
            assert(fields_view(out@) =~= data_fields(d@));
            out
        },
    }
}

fn read_creator(c: &Json) -> (res: RawCreator)
    ensures
        creator_view(res) == creator_entry(c@),
{
    let creator_type = str_value(get_member(c, "creatorType"));
    let name = str_value(get_member(c, "name"));
    let last_name = str_value(get_member(c, "lastName"));
    let first_name = str_value(get_member(c, "firstName"));
    RawCreator { creator_type, name, last_name, first_name }
}

fn read_creators(d: &Json) -> (res: Option<Vec<RawCreator>>)
    ensures
        match res {
            Some(v) => data_creators(d@) == Some(creators_view(v@)),
            None => data_creators(d@) is None,
        },
{
    match get_member(d, "creators") {
        Some(Json::Array(a)) => {
            proof {
                lemma_items_view(a@);
            }
            let ghost want = items_view(a@).map_values(|c: JsonV| creator_entry(c));
            let mut out: Vec<RawCreator> = Vec::new();
            for i in 0..a.len()
                invariant
                    items_view(a@).len() == a@.len(),
                    forall|k: int| 0 <= k < a@.len() ==> #[trigger] items_view(a@)[k] == json_view(a@[k]),
                    want == items_view(a@).map_values(|c: JsonV| creator_entry(c)),
                    out@.len() == i,
                    forall|k: int| 0 <= k < i ==> #[trigger] creators_view(out@)[k] == want[k],
            {
                let c = read_creator(&a[i]);
                let ghost before = out@;
                out.push(c);
                proof {
                    assert forall|k: int| 0 <= k < i + 1 implies #[trigger] creators_view(out@)[k]
                        == want[k] by {
                        if k < i {
                            assert(out@[k] == before[k]);
                            assert(creators_view(before)[k] == want[k]);
                        }
                    }
                }
            }
            assert(creators_view(out@) =~= want);
            Some(out)
        },
        _ => None,
    }
}

/// Reads the stored JSON of an item for template rendering.
pub fn template_data(raw: &Option<String>) -> (res: TemplateData)
    ensures
        res@ == template_data_spec(opt_view(*raw)),
{
    let empty = TemplateData { fields: Vec::new(), creators: None };
    assert(empty@.fields =~= Seq::<(Seq<char>, Option<Seq<char>>)>::empty());
    match raw {
        Some(r) => match parse_json(r.as_str()) {
            Some(v) => match get_member(&v, "data") {
                Some(d) => TemplateData { fields: read_fields(d), creators: read_creators(d) },
                None => empty,
            },
            None => empty,
        },
        None => empty,
    }
}

/// The named result of `regex::Regex::new(pattern)` followed by
/// `replace_all(input, replacement)`; `None` when the pattern is refused.
pub uninterp spec fn regex_replace_all_result(
    input: Seq<char>,
    pattern: Seq<char>,
    replacement: Seq<char>,
) -> Option<Seq<char>>;

/// The named result of `regex::Regex::new(pattern)` followed by
/// `replacen(input, 1, replacement)`; `None` when the pattern is refused.
pub uninterp spec fn regex_replace_first_result(
    input: Seq<char>,
    pattern: Seq<char>,
    replacement: Seq<char>,
) -> Option<Seq<char>>;

/// `regex::Regex::new` and `Regex::replace_all`; the contract names the
/// result and says nothing of it.
#[verifier::external_body]
fn regex_replace_all(input: &str, pattern: &str, replacement: &str) -> (res: Option<String>)
    ensures
        opt_view(res) == regex_replace_all_result(input@, pattern@, replacement@),
{
    match regex::Regex::new(pattern) {
        Ok(re) => Some(re.replace_all(input, replacement).into_owned()),
        Err(_) => None,
    }
}

/// `regex::Regex::new` and `Regex::replacen` with a limit of one; the
/// contract names the result and says nothing of it.
#[verifier::external_body]
fn regex_replace_first(input: &str, pattern: &str, replacement: &str) -> (res: Option<String>)
    ensures
        opt_view(res) == regex_replace_first_result(input@, pattern@, replacement@),
{
    match regex::Regex::new(pattern) {
        Ok(re) => Some(re.replacen(input, 1, replacement).into_owned()),
        Err(_) => None,
    }
}

// ---------------------------------------------------------------------
// Evaluation, in specification
// ---------------------------------------------------------------------

pub open spec fn or_else(o: Option<Seq<char>>, d: Seq<char>) -> Seq<char> {
    match o {
        Some(v) => v,
        None => d,
    }
}

pub open spec fn either(a: Option<Seq<char>>, b: Option<Seq<char>>) -> Option<Seq<char>> {
    if a is Some {
        a
    } else {
        b
    }
}

pub open spec fn nonblank(v: Seq<char>) -> bool {
    trim(v, Trim::Ws).len() > 0
}

/// The entry of `key` in the data object.
pub open spec fn field_entry(fields: Seq<(Seq<char>, Option<Seq<char>>)>, key: Seq<char>) -> Option<
    Option<Seq<char>>,
>
    decreases fields.len(),
{
    if fields.len() == 0 {
        None
    } else if fields[0].0 == key {
        Some(fields[0].1)
    } else {
        field_entry(fields.drop_first(), key)
    }
}

/// The text of `key` in the data object, where it is not blank.
pub open spec fn field_text(d: DataV, key: Seq<char>) -> Option<Seq<char>> {
    match field_entry(d.fields, key) {
        Some(Some(v)) => if nonblank(v) {
            Some(v)
        } else {
            None
        },
        _ => None,
    }
}

pub open spec fn leading_digits(s: Seq<char>) -> int
    decreases s.len(),
{
    if s.len() > 0 && crate::text::is_ascii_digit(s[0]) {
        1 + leading_digits(s.drop_first())
    } else {
        0
    }
}

pub open spec fn date_value(item: IndexedItem, d: DataV) -> Seq<char> {
    or_else(
        either(field_text(d, "date"@), either(field_text(d, "issueDate"@), field_text(d, "filingDate"@))),
        item.year@,
    )
}

/// The value of a bare field name.
pub open spec fn resolve(name: Seq<char>, item: IndexedItem, d: DataV) -> Seq<char> {
    if name == "title"@ {
        or_else(field_text(d, "title"@), item.title@)
    } else if name == "itemType"@ {
        or_else(field_text(d, "itemType"@), item.item_type@)
    } else if name == "date"@ {
        date_value(item, d)
    } else if name == "dateEnacted"@ {
        or_else(
            either(field_text(d, "dateEnacted"@), either(field_text(d, "enactmentDate"@), field_text(d, "date"@))),
            item.year@,
        )
    } else if name == "year"@ {
        let date = date_value(item, d);
        if date.len() == 0 {
            item.year@
        } else {
            date.take(leading_digits(date))
        }
    } else if name == "itemKey"@ || name == "item_key"@ {
        item.item_key@
    } else if name == "creators"@ {
        item.creators@
    } else if name == "primaryCreator"@ || name == "primary_creator"@ {
        item.primary_creator@
    } else if name == "nameOfAct"@ {
        or_else(
            either(field_text(d, "nameOfAct"@), field_text(d, "title"@)),
            if starts_with(item.title@, "[无标题] -- "@) {
                Seq::empty()
            } else {
                item.title@
            },
        )
    } else if name == "publicLawNumber"@ {
        or_else(
            either(
                field_text(d, "publicLawNumber"@),
                either(field_text(d, "codeNumber"@), either(field_text(d, "number"@), field_text(d, "code"@))),
            ),
            Seq::empty(),
        )
    } else if name == "containerTitle"@ || name == "container_title"@ || name == "publicationTitle"@ {
        or_else(
            either(
                field_text(d, "publicationTitle"@),
                either(field_text(d, "bookTitle"@), field_text(d, "proceedingsTitle"@)),
            ),
            item.container_title@,
        )
    } else if name == "authors"@ {
        format_creators(item, d, "author"@, Seq::empty())
    } else if name == "editors"@ {
        format_creators(item, d, "editor"@, Seq::empty())
    } else if name == "number"@ {
        or_else(
            either(
                field_text(d, "number"@),
                either(field_text(d, "reportNumber"@), either(field_text(d, "patentNumber"@), field_text(d, "caseNumber"@))),
            ),
            Seq::empty(),
        )
    } else if name == "publisher"@ {
        or_else(
            either(field_text(d, "publisher"@), either(field_text(d, "university"@), field_text(d, "institution"@))),
            Seq::empty(),
        )
    } else {
        or_else(field_text(d, name), Seq::empty())
    }
}

/// The first attribute named `key`.
pub open spec fn attr(attrs: Seq<(Seq<char>, Seq<char>)>, key: Seq<char>) -> Option<Seq<char>>
    decreases attrs.len(),
{
    if attrs.len() == 0 {
        None
    } else if attrs[0].0 == key {
        Some(attrs[0].1)
    } else {
        attr(attrs.drop_first(), key)
    }
}

/// Each word's first character followed by `init_with`, the words joined
/// with single spaces.
pub open spec fn initials(part: Seq<char>, init_with: Seq<char>) -> Seq<char> {
    join(words(part).map_values(|w: Seq<char>| w.take(1) + init_with), seq![' '])
}

/// A name part, turned into initials when `initialize` targets it
/// (`"full"` targets both parts).
pub open spec fn maybe_initialize(
    part: Seq<char>,
    kind: Seq<char>,
    initialize: Option<Seq<char>>,
    init_with: Seq<char>,
) -> Seq<char> {
    if !(initialize == Some("full"@) || initialize == Some(kind)) || part.len() == 0 {
        part
    } else {
        initials(part, init_with)
    }
}

/// `a` and `b` joined with `sep`, an empty one left out.
pub open spec fn join2(a: Seq<char>, b: Seq<char>, sep: Seq<char>) -> Seq<char> {
    if a.len() == 0 {
        b
    } else if b.len() == 0 {
        a
    } else {
        a + sep + b
    }
}

/// How creator names are written.
pub ghost struct NameStyle {
    pub name_fmt: Seq<char>,
    pub initialize: Option<Seq<char>>,
    pub init_with: Seq<char>,
    pub part_sep: Seq<char>,
}

/// One creator's name: a single-field name verbatim (trimmed), else the
/// family and given parts as `name_fmt` orders them.
pub open spec fn creator_display(c: CreatorV, st: NameStyle) -> Seq<char> {
    let single = or_else(c.1, Seq::empty());
    if nonblank(single) {
        trim(single, Trim::Ws)
    } else {
        let family = maybe_initialize(
            trim(or_else(c.2, Seq::empty()), Trim::Ws),
            "family"@,
            st.initialize,
            st.init_with,
        );
        let given = maybe_initialize(
            trim(or_else(c.3, Seq::empty()), Trim::Ws),
            "given"@,
            st.initialize,
            st.init_with,
        );
        if st.name_fmt == "given"@ {
            given
        } else if st.name_fmt == "family-given"@ {
            join2(family, given, st.part_sep)
        } else if st.name_fmt == "given-family"@ {
            join2(given, family, st.part_sep)
        } else {
            family
        }
    }
}

/// The non-empty names of the creators of type `ctype`, in order.
pub open spec fn creator_names(list: Seq<CreatorV>, ctype: Seq<char>, st: NameStyle) -> Seq<
    Seq<char>,
>
    decreases list.len(),
{
    if list.len() == 0 {
        Seq::empty()
    } else {
        let rest = creator_names(list.drop_last(), ctype, st);
        let c = list.last();
        if c.0 == Some(ctype) && creator_display(c, st).len() > 0 {
            rest.push(creator_display(c, st))
        } else {
            rest
        }
    }
}

pub open spec fn name_style(attrs: Seq<(Seq<char>, Seq<char>)>) -> NameStyle {
    NameStyle {
        name_fmt: or_else(attr(attrs, "name"@), "family"@),
        initialize: attr(attrs, "initialize"@),
        init_with: or_else(attr(attrs, "initialize-with"@), "."@),
        part_sep: or_else(attr(attrs, "name-part-separator"@), " "@),
    }
}

/// The creators of one type, formatted as Zotero's renaming does: `name`,
/// `initialize`, `initialize-with`, `name-part-separator`, `join` and `max`
/// attributes; an author list falls back to the item's primary creator.
pub open spec fn format_creators(
    item: IndexedItem,
    d: DataV,
    ctype: Seq<char>,
    attrs: Seq<(Seq<char>, Seq<char>)>,
) -> Seq<char> {
    let names = match d.creators {
        Some(list) => creator_names(list, ctype, name_style(attrs)),
        None => Seq::empty(),
    };
    let names = if names.len() == 0 && ctype == "author"@ && item.primary_creator@.len() > 0 {
        seq![item.primary_creator@]
    } else {
        names
    };
    let names = match attr(attrs, "max"@) {
        Some(m) => match parse_usize_spec(m) {
            Some(k) => if k < names.len() {
                names.take(k as int)
            } else {
                names
            },
            None => names,
        },
        None => names,
    };
    join(names, or_else(attr(attrs, "join"@), ", "@))
}

/// `replaceFrom` as a regular expression (all matches with `regexOpts`
/// holding `g`, else the first); a pattern the regex crate refuses is
/// replaced as plain text.
pub open spec fn apply_replace(
    value: Seq<char>,
    from: Seq<char>,
    to: Seq<char>,
    global: bool,
) -> Seq<char> {
    if global {
        match regex_replace_all_result(value, from, to) {
            Some(r) => r,
            None => str_replace(value, from, to),
        }
    } else {
        match regex_replace_first_result(value, from, to) {
            Some(r) => r,
            None => replace_first(value, from, to),
        }
    }
}

pub open spec fn eval_field(f: FieldV, item: IndexedItem, d: DataV) -> Seq<char> {
    let value = if f.name == "authors"@ {
        format_creators(item, d, "author"@, f.attrs)
    } else if f.name == "editors"@ {
        format_creators(item, d, "editor"@, f.attrs)
    } else {
        resolve(f.name, item, d)
    };
    match attr(f.attrs, "replaceFrom"@) {
        Some(from) => apply_replace(
            value,
            from,
            or_else(attr(f.attrs, "replaceTo"@), Seq::empty()),
            match attr(f.attrs, "regexOpts"@) {
                Some(o) => has_char(o, 'g'),
                None => false,
            },
        ),
        None => value,
    }
}

/// `{{publisher}}` (with no `replaceFrom`) renders the item data's
/// publisher, else its university, else its institution, each only where it
/// is not blank; it is empty only when all three are missing or blank.
pub proof fn law_publisher_falls_back(
    attrs: Seq<(Seq<char>, Seq<char>)>,
    item: IndexedItem,
    d: DataV,
)
    requires
        attr(attrs, "replaceFrom"@) is None,
    ensures
        ({
            let r = eval_field(FieldV { name: "publisher"@, attrs }, item, d);
            let p = field_text(d, "publisher"@);
            let u = field_text(d, "university"@);
            let i = field_text(d, "institution"@);
            &&& p matches Some(v) ==> r == v
            &&& p is None ==> (u matches Some(v) ==> r == v)
            &&& p is None && u is None ==> (i matches Some(v) ==> r == v)
            &&& p is None && u is None && i is None ==> r.len() == 0
        }),
{
    reveal_strlit("publisher");
    reveal_strlit("authors");
    reveal_strlit("editors");
    reveal_strlit("title");
    reveal_strlit("itemType");
    reveal_strlit("date");
    reveal_strlit("dateEnacted");
    reveal_strlit("year");
    reveal_strlit("itemKey");
    reveal_strlit("item_key");
    reveal_strlit("creators");
    reveal_strlit("primaryCreator");
    reveal_strlit("primary_creator");
    reveal_strlit("nameOfAct");
    reveal_strlit("publicLawNumber");
    reveal_strlit("containerTitle");
    reveal_strlit("container_title");
    reveal_strlit("publicationTitle");
    reveal_strlit("number");
    let q = "publisher"@;
    assert(q != "authors"@) by {
        if q.len() == "authors"@.len() {
            assert(q[0] != "authors"@[0] || q[1] != "authors"@[1]);
        }
    }
    assert(q != "editors"@) by {
        if q.len() == "editors"@.len() {
            assert(q[0] != "editors"@[0] || q[1] != "editors"@[1]);
        }
    }
    assert(q != "title"@) by {
        if q.len() == "title"@.len() {
            assert(q[0] != "title"@[0] || q[1] != "title"@[1]);
        }
    }
    assert(q != "itemType"@) by {
        if q.len() == "itemType"@.len() {
            assert(q[0] != "itemType"@[0] || q[1] != "itemType"@[1]);
        }
    }
    assert(q != "date"@) by {
        if q.len() == "date"@.len() {
            assert(q[0] != "date"@[0] || q[1] != "date"@[1]);
        }
    }
    assert(q != "dateEnacted"@) by {
        if q.len() == "dateEnacted"@.len() {
            assert(q[0] != "dateEnacted"@[0] || q[1] != "dateEnacted"@[1]);
        }
    }
    assert(q != "year"@) by {
        if q.len() == "year"@.len() {
            assert(q[0] != "year"@[0] || q[1] != "year"@[1]);
        }
    }
    assert(q != "itemKey"@) by {
        if q.len() == "itemKey"@.len() {
            assert(q[0] != "itemKey"@[0] || q[1] != "itemKey"@[1]);
        }
    }
    assert(q != "item_key"@) by {
        if q.len() == "item_key"@.len() {
            assert(q[0] != "item_key"@[0] || q[1] != "item_key"@[1]);
        }
    }
    assert(q != "creators"@) by {
        if q.len() == "creators"@.len() {
            assert(q[0] != "creators"@[0] || q[1] != "creators"@[1]);
        }
    }
    assert(q != "primaryCreator"@) by {
        if q.len() == "primaryCreator"@.len() {
            assert(q[0] != "primaryCreator"@[0] || q[1] != "primaryCreator"@[1]);
        }
    }
    assert(q != "primary_creator"@) by {
        if q.len() == "primary_creator"@.len() {
            assert(q[0] != "primary_creator"@[0] || q[1] != "primary_creator"@[1]);
        }
    }
    assert(q != "nameOfAct"@) by {
        if q.len() == "nameOfAct"@.len() {
            assert(q[0] != "nameOfAct"@[0] || q[1] != "nameOfAct"@[1]);
        }
    }
    assert(q != "publicLawNumber"@) by {
        if q.len() == "publicLawNumber"@.len() {
            assert(q[0] != "publicLawNumber"@[0] || q[1] != "publicLawNumber"@[1]);
        }
    }
    assert(q != "containerTitle"@) by {
        if q.len() == "containerTitle"@.len() {
            assert(q[0] != "containerTitle"@[0] || q[1] != "containerTitle"@[1]);
        }
    }
    assert(q != "container_title"@) by {
        if q.len() == "container_title"@.len() {
            assert(q[0] != "container_title"@[0] || q[1] != "container_title"@[1]);
        }
    }
    assert(q != "publicationTitle"@) by {
        if q.len() == "publicationTitle"@.len() {
            assert(q[0] != "publicationTitle"@[0] || q[1] != "publicationTitle"@[1]);
        }
    }
    assert(q != "number"@) by {
        if q.len() == "number"@.len() {
            assert(q[0] != "number"@[0] || q[1] != "number"@[1]);
        }
    }
    assert(eval_field(FieldV { name: q, attrs }, item, d) == resolve(q, item, d));
}

pub open spec fn eval_cond(c: CondV, item: IndexedItem, d: DataV) -> bool {
    match c {
        CondV::Truthy(field) => nonblank(resolve(field, item, d)),
        CondV::Eq { field, value, negated } => (trim(resolve(field, item, d), Trim::Ws) == value)
            != negated,
    }
}

pub open spec fn render_nodes(nodes: Seq<NodeV>, item: IndexedItem, d: DataV) -> Seq<char>
    decreases nodes,
{
    if nodes.len() == 0 {
        Seq::empty()
    } else {
        render_nodes(nodes.drop_last(), item, d) + render_node(nodes.last(), item, d)
    }
}

pub open spec fn render_node(n: NodeV, item: IndexedItem, d: DataV) -> Seq<char>
    decreases n,
{
    match n {
        NodeV::Text(t) => t,
        NodeV::Field(f) => eval_field(f, item, d),
        NodeV::If(bs) => render_branches(bs, item, d),
    }
}

/// The body of the first branch whose condition holds (`else` always does).
pub open spec fn render_branches(bs: Seq<BranchV>, item: IndexedItem, d: DataV) -> Seq<char>
    decreases bs,
{
    if bs.len() == 0 {
        Seq::empty()
    } else {
        let take = match bs[0].cond {
            None => true,
            Some(c) => eval_cond(c, item, d),
        };
        if take {
            render_nodes(bs[0].body, item, d)
        } else {
            render_branches(bs.drop_first(), item, d)
        }
    }
}

/// A rendered template: the nodes' output, trimmed, with runs of spaces
/// collapsed.
pub open spec fn render_spec(template: Seq<char>, item: IndexedItem, d: DataV) -> Seq<char> {
    collapse(
        trim(render_nodes(parse_template(template), item, d), Trim::Ws),
        seq![' ', ' '],
        seq![' '],
    )
}

/// A template renders the same for an item whatever mirror name it has
/// stored: no field that templates read is that name.
pub proof fn lemma_render_ignores_stored_name(
    template: Seq<char>,
    item: IndexedItem,
    stored: Option<String>,
    d: DataV,
)
    ensures
        render_spec(template, item, d) == render_spec(
            template,
            IndexedItem { mirror_filename: stored, ..item },
            d,
        ),
{
    lemma_nodes_ignore_stored_name(parse_template(template), item, stored, d);
}

proof fn lemma_nodes_ignore_stored_name(
    nodes: Seq<NodeV>,
    item: IndexedItem,
    stored: Option<String>,
    d: DataV,
)
    ensures
        render_nodes(nodes, item, d) == render_nodes(
            nodes,
            IndexedItem { mirror_filename: stored, ..item },
            d,
        ),
    decreases nodes,
{
    if nodes.len() > 0 {
        lemma_nodes_ignore_stored_name(nodes.drop_last(), item, stored, d);
        lemma_node_ignores_stored_name(nodes.last(), item, stored, d);
    }
}

proof fn lemma_node_ignores_stored_name(n: NodeV, item: IndexedItem, stored: Option<String>, d: DataV)
    ensures
        render_node(n, item, d) == render_node(n, IndexedItem { mirror_filename: stored, ..item }, d),
    decreases n,
{
    if let NodeV::If(bs) = n {
        lemma_branches_ignore_stored_name(bs, item, stored, d);
    }
}

proof fn lemma_branches_ignore_stored_name(
    bs: Seq<BranchV>,
    item: IndexedItem,
    stored: Option<String>,
    d: DataV,
)
    ensures
        render_branches(bs, item, d) == render_branches(
            bs,
            IndexedItem { mirror_filename: stored, ..item },
            d,
        ),
    decreases bs,
{
    if bs.len() > 0 {
        lemma_nodes_ignore_stored_name(bs[0].body, item, stored, d);
        lemma_branches_ignore_stored_name(bs.drop_first(), item, stored, d);
    }
}

// ---------------------------------------------------------------------
// Evaluation
// ---------------------------------------------------------------------

spec fn ov(o: Option<Vec<char>>) -> Option<Seq<char>> {
    match o {
        Some(v) => Some(v@),
        None => None,
    }
}

fn lit_eq(v: &Vec<char>, lit: &str) -> (r: bool)
    ensures
        r == (v@ == lit@),
{
    let l = chars_of(lit);
    chars_eq(v, &l)
}

fn field_text_exec(d: &TemplateData, key: &Vec<char>) -> (r: Option<Vec<char>>)
    ensures
        ov(r) == field_text(d@, key@),
{
    let ghost fv = d@.fields;
    let mut i: usize = 0;
    assert(fv.skip(0) =~= fv);
    while i < d.fields.len()
        invariant
            i <= d.fields.len(),
            fv == fields_view(d.fields@),
            fv == d@.fields,
            field_entry(fv, key@) == field_entry(fv.skip(i as int), key@),
        decreases d.fields.len() - i,
    {
        let k = chars_of(d.fields[i].0.as_str());
        proof {
            assert(fv.skip(i as int)[0] == fv[i as int]);
            assert(fv.skip(i as int).drop_first() =~= fv.skip(i + 1));
        }
        if chars_eq(&k, key) {
            match &d.fields[i].1 {
                Some(v) => {
                    let c = chars_of(v.as_str());
                    let t = trim_chars(&c, Trim::Ws);
                    if t.len() > 0 {
                        return Some(c);
                    }
                    return None;
                },
                None => {
                    return None;
                },
            }
        }
        i += 1;
    }
    None
}

fn text_of(d: &TemplateData, key: &str) -> (r: Option<Vec<char>>)
    ensures
        ov(r) == field_text(d@, key@),
{
    let k = chars_of(key);
    field_text_exec(d, &k)
}

fn either_exec(a: Option<Vec<char>>, b: Option<Vec<char>>) -> (r: Option<Vec<char>>)
    ensures
        ov(r) == either(ov(a), ov(b)),
{
    if a.is_some() {
        a
    } else {
        b
    }
}

fn or_else_exec(o: Option<Vec<char>>, d: Vec<char>) -> (r: Vec<char>)
    ensures
        r@ == or_else(ov(o), d@),
{
    match o {
        Some(v) => v,
        None => d,
    }
}

fn text_of2(d: &TemplateData, a: &str, b: &str) -> (r: Option<Vec<char>>)
    ensures
        ov(r) == either(field_text(d@, a@), field_text(d@, b@)),
{
    either_exec(text_of(d, a), text_of(d, b))
}

fn text_of3(d: &TemplateData, a: &str, b: &str, c: &str) -> (r: Option<Vec<char>>)
    ensures
        ov(r) == either(field_text(d@, a@), either(field_text(d@, b@), field_text(d@, c@))),
{
    either_exec(text_of(d, a), text_of2(d, b, c))
}

fn text_of4(d: &TemplateData, a: &str, b: &str, c: &str, e: &str) -> (r: Option<Vec<char>>)
    ensures
        ov(r) == either(
            field_text(d@, a@),
            either(field_text(d@, b@), either(field_text(d@, c@), field_text(d@, e@))),
        ),
{
    either_exec(text_of(d, a), text_of3(d, b, c, e))
}

fn leading_digits_exec(s: &Vec<char>) -> (r: usize)
    ensures
        r == leading_digits(s@),
        r <= s.len(),
{
    let mut i: usize = 0;
    assert(s@.skip(0) =~= s@);
    while i < s.len() && '0' <= s[i] && s[i] <= '9'
        invariant
            i <= s.len(),
            leading_digits(s@) == i + leading_digits(s@.skip(i as int)),
        decreases s.len() - i,
    {
        assert(s@.skip(i as int).drop_first() =~= s@.skip(i + 1));
        i += 1;
    }
    i
}

fn date_exec(item: &IndexedItem, d: &TemplateData) -> (r: Vec<char>)
    ensures
        r@ == date_value(*item, d@),
{
    or_else_exec(text_of3(d, "date", "issueDate", "filingDate"), chars_of(item.year.as_str()))
}

fn resolve_exec(name: &Vec<char>, item: &IndexedItem, d: &TemplateData) -> (r: Vec<char>)
    ensures
        r@ == resolve(name@, *item, d@),
{
    if lit_eq(name, "title") {
        return or_else_exec(text_of(d, "title"), chars_of(item.title.as_str()));
    }
    if lit_eq(name, "itemType") {
        return or_else_exec(text_of(d, "itemType"), chars_of(item.item_type.as_str()));
    }
    if lit_eq(name, "date") {
        return date_exec(item, d);
    }
    if lit_eq(name, "dateEnacted") {
        return or_else_exec(
            text_of3(d, "dateEnacted", "enactmentDate", "date"),
            chars_of(item.year.as_str()),
        );
    }
    if lit_eq(name, "year") {
        let date = date_exec(item, d);
        if date.len() == 0 {
            return chars_of(item.year.as_str());
        }
        let k = leading_digits_exec(&date);
        let r = slice_chars(&date, 0, k);
        assert(r@ =~= date@.take(k as int));
        return r;
    }
    if lit_eq(name, "itemKey") || lit_eq(name, "item_key") {
        return chars_of(item.item_key.as_str());
    }
    if lit_eq(name, "creators") {
        return chars_of(item.creators.as_str());
    }
    if lit_eq(name, "primaryCreator") || lit_eq(name, "primary_creator") {
        return chars_of(item.primary_creator.as_str());
    }
    if lit_eq(name, "nameOfAct") {
        let title = chars_of(item.title.as_str());
        let untitled = chars_of("[无标题] -- ");
        let fallback = if starts_with_chars(&title, &untitled) {
            Vec::new()
        } else {
            title
        };
        return or_else_exec(text_of2(d, "nameOfAct", "title"), fallback);
    }
    if lit_eq(name, "publicLawNumber") {
        return or_else_exec(
            text_of4(d, "publicLawNumber", "codeNumber", "number", "code"),
            Vec::new(),
        );
    }
    if lit_eq(name, "containerTitle") || lit_eq(name, "container_title") || lit_eq(
        name,
        "publicationTitle",
    ) {
        return or_else_exec(
            text_of3(d, "publicationTitle", "bookTitle", "proceedingsTitle"),
            chars_of(item.container_title.as_str()),
        );
    }
    if lit_eq(name, "authors") {
        let none: Vec<(Vec<char>, Vec<char>)> = Vec::new();
        assert(attrs_view(none@) =~= Seq::<(Seq<char>, Seq<char>)>::empty());
        return format_creators_exec(item, d, "author", &none);
    }
    if lit_eq(name, "editors") {
        let none: Vec<(Vec<char>, Vec<char>)> = Vec::new();
        assert(attrs_view(none@) =~= Seq::<(Seq<char>, Seq<char>)>::empty());
        return format_creators_exec(item, d, "editor", &none);
    }
    if lit_eq(name, "number") {
        return or_else_exec(
            text_of4(d, "number", "reportNumber", "patentNumber", "caseNumber"),
            Vec::new(),
        );
    }
    if lit_eq(name, "publisher") {
        return or_else_exec(text_of3(d, "publisher", "university", "institution"), Vec::new());
    }
    or_else_exec(field_text_exec(d, name), Vec::new())
}

fn attr_exec(attrs: &Vec<(Vec<char>, Vec<char>)>, key: &str) -> (r: Option<Vec<char>>)
    ensures
        ov(r) == attr(attrs_view(attrs@), key@),
{
    let ghost av = attrs_view(attrs@);
    let k = chars_of(key);
    let mut i: usize = 0;
    assert(av.skip(0) =~= av);
    while i < attrs.len()
        invariant
            i <= attrs.len(),
            av == attrs_view(attrs@),
            k@ == key@,
            attr(av, key@) == attr(av.skip(i as int), key@),
        decreases attrs.len() - i,
    {
        proof {
            assert(av.skip(i as int)[0] == av[i as int]);
            assert(av.skip(i as int).drop_first() =~= av.skip(i + 1));
        }
        if chars_eq(&attrs[i].0, &k) {
            return Some(slice_chars(&attrs[i].1, 0, attrs[i].1.len()));
        }
        i += 1;
    }
    None
}

fn initials_exec(part: &Vec<char>, init_with: &Vec<char>) -> (r: Vec<char>)
    ensures
        r@ == initials(part@, init_with@),
{
    let ws = words_of(part);
    let ghost wv = words(part@);
    proof {
        crate::text::lemma_words_nonempty(part@);
    }
    let mut parts: Vec<Vec<char>> = Vec::new();
    let mut i: usize = 0;
    while i < ws.len()
        invariant
            i <= ws.len(),
            wv == ws@.map_values(|w: Vec<char>| w@),
            parts@.len() == i,
            forall|j: int| 0 <= j < i ==> #[trigger] parts@[j]@ == ws@[j]@.take(1) + init_with@,
            forall|j: int| 0 <= j < wv.len() ==> #[trigger] wv[j].len() > 0,
        decreases ws.len() - i,
    {
        let w = &ws[i];
        assert(wv[i as int] == w@);
        let mut x = slice_chars(w, 0, 1);
        assert(x@ =~= w@.take(1));
        push_all(&mut x, init_with);
        parts.push(x);
        i += 1;
    }
    let sp = crate::text::char_vec1(' ');
    proof {
        let pv = parts@.map_values(|p: Vec<char>| p@);
        assert(pv =~= wv.map_values(|w: Seq<char>| w.take(1) + init_with@));
    }
    join_chars(&parts, &sp)
}

fn maybe_initialize_exec(
    part: Vec<char>,
    kind: &str,
    initialize: &Option<Vec<char>>,
    init_with: &Vec<char>,
) -> (r: Vec<char>)
    ensures
        r@ == maybe_initialize(part@, kind@, ov(*initialize), init_with@),
{
    let targeted = match initialize {
        Some(v) => lit_eq(v, "full") || lit_eq(v, kind),
        None => false,
    };
    if !targeted || part.len() == 0 {
        part
    } else {
        initials_exec(&part, init_with)
    }
}

fn join2_exec(a: Vec<char>, b: Vec<char>, sep: &Vec<char>) -> (r: Vec<char>)
    ensures
        r@ == join2(a@, b@, sep@),
{
    if a.len() == 0 {
        b
    } else if b.len() == 0 {
        a
    } else {
        let mut out = a;
        push_all(&mut out, sep);
        push_all(&mut out, &b);
        out
    }
}

struct Style {
    name_fmt: Vec<char>,
    initialize: Option<Vec<char>>,
    init_with: Vec<char>,
    part_sep: Vec<char>,
}

spec fn style_view(st: Style) -> NameStyle {
    NameStyle {
        name_fmt: st.name_fmt@,
        initialize: ov(st.initialize),
        init_with: st.init_with@,
        part_sep: st.part_sep@,
    }
}

fn opt_chars(o: &Option<String>) -> (r: Vec<char>)
    ensures
        r@ == or_else(opt_view(*o), Seq::empty()),
{
    match o {
        Some(s) => chars_of(s.as_str()),
        None => Vec::new(),
    }
}

fn creator_display_exec(c: &RawCreator, st: &Style) -> (r: Vec<char>)
    ensures
        r@ == creator_display(creator_view(*c), style_view(*st)),
{
    let single = opt_chars(&c.name);
    let single_t = trim_chars(&single, Trim::Ws);
    if single_t.len() > 0 {
        return single_t;
    }
    let last = opt_chars(&c.last_name);
    let first = opt_chars(&c.first_name);
    let family = maybe_initialize_exec(
        trim_chars(&last, Trim::Ws),
        "family",
        &st.initialize,
        &st.init_with,
    );
    let given = maybe_initialize_exec(
        trim_chars(&first, Trim::Ws),
        "given",
        &st.initialize,
        &st.init_with,
    );
    if lit_eq(&st.name_fmt, "given") {
        given
    } else if lit_eq(&st.name_fmt, "family-given") {
        join2_exec(family, given, &st.part_sep)
    } else if lit_eq(&st.name_fmt, "given-family") {
        join2_exec(given, family, &st.part_sep)
    } else {
        family
    }
}

fn creator_names_exec(list: &Vec<RawCreator>, ctype: &str, st: &Style) -> (r: Vec<Vec<char>>)
    ensures
        r@.map_values(|n: Vec<char>| n@) == creator_names(
            creators_view(list@),
            ctype@,
            style_view(*st),
        ),
{
    let ghost cv = creators_view(list@);
    let mut names: Vec<Vec<char>> = Vec::new();
    let mut i: usize = 0;
    assert(names@.map_values(|n: Vec<char>| n@) =~= creator_names(cv.take(0), ctype@, style_view(*st)));
    while i < list.len()
        invariant
            i <= list.len(),
            cv == creators_view(list@),
            names@.map_values(|n: Vec<char>| n@) == creator_names(
                cv.take(i as int),
                ctype@,
                style_view(*st),
            ),
        decreases list.len() - i,
    {
        let c = &list[i];
        proof {
            assert(cv.take(i + 1).drop_last() =~= cv.take(i as int));
            assert(cv.take(i + 1).last() == creator_view(*c));
        }
        let matches = match &c.creator_type {
            Some(t) => crate::text::str_eq(t.as_str(), ctype),
            None => false,
        };
        if matches {
            let n = creator_display_exec(c, st);
            if n.len() > 0 {
                let ghost before = names@;
                names.push(n);
                proof {
                    assert(names@.map_values(|n: Vec<char>| n@) =~= before.map_values(
                        |n: Vec<char>| n@,
                    ).push(n@));
                }
            }
        }
        i += 1;
    }
    assert(cv.take(list.len() as int) =~= cv);
    names
}

fn format_creators_exec(
    item: &IndexedItem,
    d: &TemplateData,
    ctype: &str,
    attrs: &Vec<(Vec<char>, Vec<char>)>,
) -> (r: Vec<char>)
    ensures
        r@ == format_creators(*item, d@, ctype@, attrs_view(attrs@)),
{
    let st = Style {
        name_fmt: or_else_exec(attr_exec(attrs, "name"), chars_of("family")),
        initialize: attr_exec(attrs, "initialize"),
        init_with: or_else_exec(attr_exec(attrs, "initialize-with"), chars_of(".")),
        part_sep: or_else_exec(attr_exec(attrs, "name-part-separator"), chars_of(" ")),
    };
    assert(style_view(st) == name_style(attrs_view(attrs@)));
    let mut names: Vec<Vec<char>> = match &d.creators {
        Some(list) => creator_names_exec(list, ctype, &st),
        None => Vec::new(),
    };
    let ghost n1 = names@.map_values(|n: Vec<char>| n@);
    let primary = chars_of(item.primary_creator.as_str());
    if names.len() == 0 && crate::text::str_eq(ctype, "author") && primary.len() > 0 {
        names.push(primary);
    }
    let ghost n2 = names@.map_values(|n: Vec<char>| n@);
    proof {
        if n1.len() == 0 && ctype@ == "author"@ && item.primary_creator@.len() > 0 {
            assert(n2 =~= seq![item.primary_creator@]);
        }
    }
    match attr_exec(attrs, "max") {
        Some(m) => match parse_usize_chars(&m) {
            Some(k) => {
                if k < names.len() {
                    names.truncate(k);
                    assert(names@.map_values(|n: Vec<char>| n@) =~= n2.take(k as int));
                }
            },
            None => {},
        },
        None => {},
    }
    let sep = or_else_exec(attr_exec(attrs, "join"), chars_of(", "));
    join_chars(&names, &sep)
}

fn apply_replace_exec(value: &Vec<char>, from: &Vec<char>, to: &Vec<char>, global: bool) -> (r: Vec<
    char,
>)
    ensures
        r@ == apply_replace(value@, from@, to@, global),
{
    let vs = string_of(value.as_slice());
    let fs = string_of(from.as_slice());
    let ts = string_of(to.as_slice());
    if global {
        match regex_replace_all(vs.as_str(), fs.as_str(), ts.as_str()) {
            Some(r) => chars_of(r.as_str()),
            None => str_replace_chars(value, from, to),
        }
    } else {
        match regex_replace_first(vs.as_str(), fs.as_str(), ts.as_str()) {
            Some(r) => chars_of(r.as_str()),
            None => replace_first_chars(value, from, to),
        }
    }
}

fn eval_field_exec(f: &FieldExpr, item: &IndexedItem, d: &TemplateData) -> (r: Vec<char>)
    ensures
        r@ == eval_field(field_view(*f), *item, d@),
{
    let value = if lit_eq(&f.name, "authors") {
        format_creators_exec(item, d, "author", &f.attrs)
    } else if lit_eq(&f.name, "editors") {
        format_creators_exec(item, d, "editor", &f.attrs)
    } else {
        resolve_exec(&f.name, item, d)
    };
    match attr_exec(&f.attrs, "replaceFrom") {
        Some(from) => {
            let to = or_else_exec(attr_exec(&f.attrs, "replaceTo"), Vec::new());
            let global = match attr_exec(&f.attrs, "regexOpts") {
                Some(o) => has_char_chars(&o, 'g'),
                None => false,
            };
            apply_replace_exec(&value, &from, &to, global)
        },
        None => value,
    }
}

fn eval_cond_exec(c: &Cond, item: &IndexedItem, d: &TemplateData) -> (r: bool)
    ensures
        r == eval_cond(cond_view(*c), *item, d@),
{
    match c {
        Cond::Truthy(field) => {
            let v = resolve_exec(field, item, d);
            trim_chars(&v, Trim::Ws).len() > 0
        },
        Cond::Eq { field, value, negated } => {
            let v = resolve_exec(field, item, d);
            let t = trim_chars(&v, Trim::Ws);
            chars_eq(&t, value) != *negated
        },
    }
}

// ---------------------------------------------------------------------
// Rendering
// ---------------------------------------------------------------------

proof fn lemma_branches_view_index(bs: Seq<Branch>)
    ensures
        branches_view(bs).len() == bs.len(),
        forall|j: int|
            0 <= j < bs.len() ==> #[trigger] branches_view(bs)[j] == (BranchV {
                cond: opt_cond_view(bs[j].cond),
                body: nodes_view(bs[j].body@),
            }),
    decreases bs.len(),
{
    if bs.len() > 0 {
        lemma_branches_view_index(bs.drop_last());
    }
}

proof fn lemma_render_nodes_push(ns: Seq<NodeV>, n: NodeV, item: IndexedItem, d: DataV)
    ensures
        render_nodes(ns.push(n), item, d) == render_nodes(ns, item, d) + render_node(n, item, d),
{
    assert(ns.push(n).drop_last() =~= ns);
    assert(ns.push(n).last() == n);
}

fn render_nodes_exec(nodes: &Vec<Node>, item: &IndexedItem, d: &TemplateData, out: &mut Vec<char>)
    ensures
        final(out)@ == old(out)@ + render_nodes(nodes_view(nodes@), *item, d@),
    decreases nodes, 0int,
{
    let ghost start = out@;
    let mut i: usize = 0;
    assert(nodes@.take(0) =~= Seq::<Node>::empty());
    assert(nodes_view(Seq::<Node>::empty()) =~= Seq::<NodeV>::empty());
    assert(start =~= start + render_nodes(nodes_view(nodes@.take(0)), *item, d@));
    while i < nodes.len()
        invariant
            i <= nodes.len(),
            out@ == start + render_nodes(nodes_view(nodes@.take(i as int)), *item, d@),
        decreases nodes.len() - i,
    {
        let ghost before = out@;
        match &nodes[i] {
            Node::Text(t) => {
                push_all(out, t);
            },
            Node::Field(f) => {
                let v = eval_field_exec(f, item, d);
                push_all(out, &v);
            },
            Node::If(bs) => {
                assert(decreases_to!(nodes => nodes@));
                assert(decreases_to!(nodes@ => nodes@[i as int]));
                render_branches_exec(bs, 0, item, d, out);
                assert(branches_view(bs@).skip(0) =~= branches_view(bs@));
            },
        }
        proof {
            assert(nodes@.take(i + 1) =~= nodes@.take(i as int).push(nodes@[i as int]));
            lemma_nodes_view_push(nodes@.take(i as int), nodes@[i as int]);
            lemma_render_nodes_push(
                nodes_view(nodes@.take(i as int)),
                node_view(nodes@[i as int]),
                *item,
                d@,
            );
        }
        i += 1;
    }
    assert(nodes@.take(nodes.len() as int) =~= nodes@);
}

fn render_branches_exec(
    bs: &Vec<Branch>,
    j: usize,
    item: &IndexedItem,
    d: &TemplateData,
    out: &mut Vec<char>,
)
    requires
        j <= bs.len(),
    ensures
        final(out)@ == old(out)@ + render_branches(branches_view(bs@).skip(j as int), *item, d@),
    decreases bs, bs.len() - j,
{
    proof {
        lemma_branches_view_index(bs@);
    }
    let ghost bv = branches_view(bs@);
    if j == bs.len() {
        assert(bv.skip(j as int) =~= Seq::<BranchV>::empty());
        assert(old(out)@ + Seq::<char>::empty() =~= old(out)@);
        return;
    }
    assert(bv.skip(j as int)[0] == bv[j as int]);
    assert(bv.skip(j as int).drop_first() =~= bv.skip(j + 1));
    let b = &bs[j];
    let take = match &b.cond {
        None => true,
        Some(c) => eval_cond_exec(c, item, d),
    };
    if take {
        assert(decreases_to!(bs => bs@));
        assert(decreases_to!(bs@ => bs@[j as int]));
        render_nodes_exec(&b.body, item, d, out);
    } else {
        render_branches_exec(bs, j + 1, item, d, out);
    }
}

/// Renders a template against already-read item data.
pub fn render_with_data(template: &str, item: &IndexedItem, d: &TemplateData) -> (res: String)
    ensures
        res@ == render_spec(template@, *item, d@),
{
    let t = chars_of(template);
    let nodes = parse_from_chars(&t, 0);
    let mut out: Vec<char> = Vec::new();
    render_nodes_exec(&nodes, item, d, &mut out);
    assert(out@ =~= render_nodes(parse_template(template@), *item, d@));
    let trimmed = trim_chars(&out, Trim::Ws);
    let two = char_vec2(' ', ' ');
    let one = crate::text::char_vec1(' ');
    let collapsed = collapse_chars(&trimmed, &two, &one);
    string_of(collapsed.as_slice())
}

/// Renders a Zotero-syntax template to a raw (unsanitized) filename base.
pub fn render(template: &str, item: &IndexedItem) -> (res: String)
    ensures
        res@ == render_spec(template@, *item, template_data_spec(opt_view(item.raw_json))),
{
    let d = template_data(&item.raw_json);
    render_with_data(template, item, &d)
}

/// Whether a template uses Zotero `{{...}}` syntax rather than the
/// `{placeholder}` syntax.
pub fn is_zotero_template(template: &str) -> (res: bool)
    ensures
        res == crate::text::contains(template@, open_braces()),
{
    let t = chars_of(template);
    let (ob, _) = braces();
    crate::text::contains_chars(&t, &ob)
}

} // verus!
