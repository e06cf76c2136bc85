//! Character-level text operations shared by every module: whitespace and
//! control classes, trimming, searching and replacing on `Seq<char>`.

use vstd::prelude::*;

verus! {

// ---------------------------------------------------------------------
// Conversions between strings and character vectors
// ---------------------------------------------------------------------

/// The characters of a string slice, in order.
pub fn chars_of(s: &str) -> (res: Vec<char>)
    ensures
        res@ == s@,
{
    let mut out: Vec<char> = Vec::new();
    for c in it: s.chars()
        invariant
            out@ == it.seq().take(it.index() as int),
            it.seq() == s@,
    {
        out.push(c);
    }
    out
}

/// `String: FromIterator<char>`: the string made of the given characters.
#[verifier::external_body]
pub(crate) fn string_of(v: &[char]) -> (res: String)
    ensures
        res@ == v@,
{
    v.iter().collect()
}

/// Copy of `v[lo..hi]`.
pub fn slice_chars(v: &Vec<char>, lo: usize, hi: usize) -> (res: Vec<char>)
    requires
        lo <= hi <= v.len(),
    ensures
        res@ == v@.subrange(lo as int, hi as int),
{
    let mut out: Vec<char> = Vec::new();
    let mut i = lo;
    while i < hi
        invariant
            lo <= i <= hi <= v.len(),
            out@ == v@.subrange(lo as int, i as int),
        decreases hi - i,
    {
        out.push(v[i]);
        i += 1;
    }
    out
}

/// `a` followed by `b`.
pub fn concat_chars(a: &Vec<char>, b: &Vec<char>) -> (res: Vec<char>)
    ensures
        res@ == a@ + b@,
{
    let mut out = a.clone();
    let mut i: usize = 0;
    while i < b.len()
        invariant
            i <= b.len(),
            out@ == a@ + b@.take(i as int),
        decreases b.len() - i,
    {
        out.push(b[i]);
        i += 1;
        proof {
            assert(b@.take(i as int) == b@.take(i - 1 as int).push(b@[i - 1]));
        }
    }
    proof {
        assert(b@.take(b.len() as int) == b@);
    }
    out
}

/// Append every character of `b` to `out`.
pub fn push_all(out: &mut Vec<char>, b: &Vec<char>)
    ensures
        final(out)@ == old(out)@ + b@,
{
    let mut i: usize = 0;
    while i < b.len()
        invariant
            i <= b.len(),
            out@ == old(out)@ + b@.take(i as int),
        decreases b.len() - i,
    {
        out.push(b[i]);
        i += 1;
        proof {
            assert(b@.take(i as int) == b@.take(i - 1 as int).push(b@[i - 1]));
        }
    }
    proof {
        assert(b@.take(b.len() as int) == b@);
    }
}

/// Whether two character vectors hold the same characters.
pub fn chars_eq(a: &Vec<char>, b: &Vec<char>) -> (res: bool)
    ensures
        res == (a@ == b@),
{
    if a.len() != b.len() {
        return false;
    }
    let mut i: usize = 0;
    while i < a.len()
        invariant
            a.len() == b.len(),
            i <= a.len(),
            forall|j: int| 0 <= j < i ==> a@[j] == b@[j],
        decreases a.len() - i,
    {
        if a[i] != b[i] {
            return false;
        }
        i += 1;
    }
    assert(a@ =~= b@);
    true
}

// ---------------------------------------------------------------------
// Character classes
// ---------------------------------------------------------------------

/// Unicode `White_Space` (what `char::is_whitespace` tests).
pub open spec fn is_ws(c: char) -> bool {
    ||| ('\u{9}' <= c && c <= '\u{d}')
    ||| c == ' '
    ||| c == '\u{85}'
    ||| c == '\u{a0}'
    ||| c == '\u{1680}'
    ||| ('\u{2000}' <= c && c <= '\u{200a}')
    ||| c == '\u{2028}'
    ||| c == '\u{2029}'
    ||| c == '\u{202f}'
    ||| c == '\u{205f}'
    ||| c == '\u{3000}'
}

pub fn is_ws_char(c: char) -> (res: bool)
    ensures
        res == is_ws(c),
{
    ('\u{9}' <= c && c <= '\u{d}') || c == ' ' || c == '\u{85}' || c == '\u{a0}' || c
        == '\u{1680}' || ('\u{2000}' <= c && c <= '\u{200a}') || c == '\u{2028}' || c
        == '\u{2029}' || c == '\u{202f}' || c == '\u{205f}' || c == '\u{3000}'
}

/// Unicode general category `Cc` (what `char::is_control` tests).
pub open spec fn is_ctrl(c: char) -> bool {
    c <= '\u{1f}' || ('\u{7f}' <= c && c <= '\u{9f}')
}

pub fn is_ctrl_char(c: char) -> (res: bool)
    ensures
        res == is_ctrl(c),
{
    c <= '\u{1f}' || ('\u{7f}' <= c && c <= '\u{9f}')
}

pub open spec fn is_ascii_digit(c: char) -> bool {
    '0' <= c && c <= '9'
}

pub open spec fn is_ascii_upper(c: char) -> bool {
    'A' <= c && c <= 'Z'
}

/// `char::to_ascii_lowercase`.
pub open spec fn ascii_lower(c: char) -> char {
    if is_ascii_upper(c) {
        ((c as u32) + 32) as char
    } else {
        c
    }
}

pub fn ascii_lower_char(c: char) -> (res: char)
    ensures
        res == ascii_lower(c),
{
    if 'A' <= c && c <= 'Z' {
        let b = (c as u8) + 32;
        b as char
    } else {
        c
    }
}

/// `str::to_ascii_lowercase`.
pub open spec fn lower_seq(s: Seq<char>) -> Seq<char> {
    s.map_values(|c: char| ascii_lower(c))
}

pub fn ascii_lower_chars(s: &Vec<char>) -> (res: Vec<char>)
    ensures
        res@ == lower_seq(s@),
{
    let mut out: Vec<char> = Vec::new();
    let mut i: usize = 0;
    while i < s.len()
        invariant
            i <= s.len(),
            out@ == lower_seq(s@.take(i as int)),
        decreases s.len() - i,
    {
        out.push(ascii_lower_char(s[i]));
        i += 1;
        proof {
            assert(lower_seq(s@.take(i as int)) =~= lower_seq(s@.take(i - 1 as int)).push(
                ascii_lower(s@[i - 1]),
            ));
        }
    }
    proof {
        assert(s@.take(s.len() as int) == s@);
    }
    out
}

// ---------------------------------------------------------------------
// Trimming
// ---------------------------------------------------------------------

/// The character sets that the code trims away.
#[derive(Clone, Copy, PartialEq, Eq, Structural)]
pub enum Trim {
    /// Unicode whitespace (`str::trim`).
    Ws,
    /// `' '` and `'.'`.
    SpaceDot,
    /// `' '` and `'-'`.
    SpaceDash,
    /// `'/'` and `'\\'`.
    Slashes,
}

pub open spec fn in_trim(t: Trim, c: char) -> bool {
    match t {
        Trim::Ws => is_ws(c),
        Trim::SpaceDot => c == ' ' || c == '.',
        Trim::SpaceDash => c == ' ' || c == '-',
        Trim::Slashes => c == '/' || c == '\\',
    }
}

pub fn in_trim_char(t: Trim, c: char) -> (res: bool)
    ensures
        res == in_trim(t, c),
{
    match t {
        Trim::Ws => is_ws_char(c),
        Trim::SpaceDot => c == ' ' || c == '.',
        Trim::SpaceDash => c == ' ' || c == '-',
        Trim::Slashes => c == '/' || c == '\\',
    }
}

/// `s` without its leading characters of class `t`.
pub open spec fn trim_start(s: Seq<char>, t: Trim) -> Seq<char>
    decreases s.len(),
{
    if s.len() > 0 && in_trim(t, s[0]) {
        trim_start(s.drop_first(), t)
    } else {
        s
    }
}

/// `s` without its trailing characters of class `t`.
pub open spec fn trim_end(s: Seq<char>, t: Trim) -> Seq<char>
    decreases s.len(),
{
    if s.len() > 0 && in_trim(t, s.last()) {
        trim_end(s.drop_last(), t)
    } else {
        s
    }
}

/// `s` without leading and trailing characters of class `t`.
pub open spec fn trim(s: Seq<char>, t: Trim) -> Seq<char> {
    trim_end(trim_start(s, t), t)
}

proof fn lemma_trim_start_skip(s: Seq<char>, t: Trim, i: int)
    requires
        0 <= i < s.len(),
        in_trim(t, s[i]),
    ensures
        trim_start(s.skip(i), t) == trim_start(s.skip(i + 1), t),
{
    assert(s.skip(i).drop_first() =~= s.skip(i + 1));
}

proof fn lemma_trim_end_take(s: Seq<char>, t: Trim, j: int)
    requires
        0 < j <= s.len(),
        in_trim(t, s[j - 1]),
    ensures
        trim_end(s.take(j), t) == trim_end(s.take(j - 1), t),
{
    assert(s.take(j).drop_last() =~= s.take(j - 1));
}

pub fn trim_start_chars(s: &Vec<char>, t: Trim) -> (res: Vec<char>)
    ensures
        res@ == trim_start(s@, t),
{
    let mut i: usize = 0;
    assert(s@.skip(0) =~= s@);
    while i < s.len() && in_trim_char(t, s[i])
        invariant
            i <= s.len(),
            trim_start(s@, t) == trim_start(s@.skip(i as int), t),
        decreases s.len() - i,
    {
        proof {
            lemma_trim_start_skip(s@, t, i as int);
        }
        i += 1;
    }
    let res = slice_chars(s, i, s.len());
    assert(res@ =~= s@.skip(i as int));
    res
}

pub fn trim_end_chars(s: &Vec<char>, t: Trim) -> (res: Vec<char>)
    ensures
        res@ == trim_end(s@, t),
{
    let mut j: usize = s.len();
    assert(s@.take(s.len() as int) =~= s@);
    while j > 0 && in_trim_char(t, s[j - 1])
        invariant
            j <= s.len(),
            trim_end(s@, t) == trim_end(s@.take(j as int), t),
        decreases j,
    {
        proof {
            lemma_trim_end_take(s@, t, j as int);
        }
        j -= 1;
    }
    let res = slice_chars(s, 0, j);
    assert(res@ =~= s@.take(j as int));
    res
}

pub fn trim_chars(s: &Vec<char>, t: Trim) -> (res: Vec<char>)
    ensures
        res@ == trim(s@, t),
{
    let a = trim_start_chars(s, t);
    trim_end_chars(&a, t)
}

/// Nothing to trim: the first and last characters are outside the class.
pub proof fn lemma_trim_noop(s: Seq<char>, t: Trim)
    requires
        s.len() > 0,
        !in_trim(t, s[0]),
        !in_trim(t, s.last()),
    ensures
        trim_start(s, t) == s,
        trim(s, t) == s,
{
}

/// The trimmed sequence does not end with a character of the class.
pub proof fn lemma_trim_end_last(s: Seq<char>, t: Trim)
    ensures
        trim_end(s, t).len() > 0 ==> !in_trim(t, trim_end(s, t).last()),
        trim_end(s, t).len() <= s.len(),
        trim_end(s, t) == s.take(trim_end(s, t).len() as int),
    decreases s.len(),
{
    if s.len() > 0 && in_trim(t, s.last()) {
        lemma_trim_end_last(s.drop_last(), t);
        assert(s.drop_last().take(trim_end(s, t).len() as int) =~= s.take(
            trim_end(s, t).len() as int,
        ));
    } else {
        assert(s.take(s.len() as int) =~= s);
    }
}

/// The trimmed sequence does not start with a character of the class.
pub proof fn lemma_trim_start_first(s: Seq<char>, t: Trim)
    ensures
        trim_start(s, t).len() > 0 ==> !in_trim(t, trim_start(s, t)[0]),
        trim_start(s, t).len() <= s.len(),
        trim_start(s, t) == s.skip(s.len() - trim_start(s, t).len()),
    decreases s.len(),
{
    if s.len() > 0 && in_trim(t, s[0]) {
        lemma_trim_start_first(s.drop_first(), t);
        assert(s.drop_first().skip(s.len() - 1 - trim_start(s, t).len()) =~= s.skip(
            s.len() - trim_start(s, t).len(),
        ));
    } else {
        assert(s.skip(0) =~= s);
    }
}

// ---------------------------------------------------------------------
// Searching
// ---------------------------------------------------------------------

/// `p` occurs in `s` starting at index `i`.
pub open spec fn matches_at(s: Seq<char>, p: Seq<char>, i: int) -> bool {
    0 <= i && i + p.len() <= s.len() && s.subrange(i, i + p.len()) == p
}

/// Index of the first occurrence of `p` in `s` at or after `i`.
pub open spec fn find_from(s: Seq<char>, p: Seq<char>, i: int) -> Option<int>
    decreases s.len() + 1 - i,
{
    if i < 0 || i + p.len() > s.len() {
        None
    } else if matches_at(s, p, i) {
        Some(i)
    } else {
        find_from(s, p, i + 1)
    }
}

/// Index of the first occurrence of `p` in `s` (`str::find`).
pub open spec fn find(s: Seq<char>, p: Seq<char>) -> Option<int> {
    find_from(s, p, 0)
}

/// `str::contains`.
pub open spec fn contains(s: Seq<char>, p: Seq<char>) -> bool {
    find(s, p) is Some
}

/// `str::starts_with`.
pub open spec fn starts_with(s: Seq<char>, p: Seq<char>) -> bool {
    p.len() <= s.len() && s.take(p.len() as int) == p
}

/// `str::ends_with`.
pub open spec fn ends_with(s: Seq<char>, p: Seq<char>) -> bool {
    p.len() <= s.len() && s.skip(s.len() - p.len()) == p
}

pub proof fn lemma_find_from_props(s: Seq<char>, p: Seq<char>, i: int)
    requires
        0 <= i,
    ensures
        find_from(s, p, i) matches Some(k) ==> i <= k && matches_at(s, p, k) && (forall|
            j: int,
        | i <= j < k ==> !matches_at(s, p, j)),
        find_from(s, p, i) is None ==> forall|j: int| i <= j ==> !matches_at(s, p, j),
    decreases s.len() + 1 - i,
{
    if i + p.len() > s.len() {
    } else if matches_at(s, p, i) {
    } else {
        lemma_find_from_props(s, p, i + 1);
    }
}

/// `find_from` is the first match: any match at or after `i` before the
/// answer does not exist, and a match at `k` means the answer is at most `k`.
pub proof fn lemma_find_from_le(s: Seq<char>, p: Seq<char>, i: int, k: int)
    requires
        0 <= i <= k,
        matches_at(s, p, k),
    ensures
        find_from(s, p, i) matches Some(m) && m <= k,
    decreases k - i,
{
    if matches_at(s, p, i) {
    } else {
        lemma_find_from_le(s, p, i + 1, k);
    }
}

pub fn matches_at_chars(s: &Vec<char>, p: &Vec<char>, i: usize) -> (res: bool)
    ensures
        res == matches_at(s@, p@, i as int),
{
    if i > s.len() || p.len() > s.len() - i {
        return false;
    }
    let mut j: usize = 0;
    while j < p.len()
        invariant
            i + p.len() <= s.len(),
            j <= p.len(),
            forall|k: int| 0 <= k < j ==> s@[i + k] == p@[k],
        decreases p.len() - j,
    {
        if s[i + j] != p[j] {
            assert(s@.subrange(i as int, i + p.len())[j as int] != p@[j as int]);
            return false;
        }
        j += 1;
    }
    assert(s@.subrange(i as int, i + p.len()) =~= p@);
    true
}

pub fn find_from_chars(s: &Vec<char>, p: &Vec<char>, start: usize) -> (res: Option<usize>)
    ensures
        match res {
            Some(k) => find_from(s@, p@, start as int) == Some(k as int),
            None => find_from(s@, p@, start as int) is None,
        },
{
    if start > s.len() || p.len() > s.len() - start {
        return None;
    }
    let last = s.len() - p.len();
    let mut i = start;
    loop
        invariant
            start <= i <= last,
            last + p.len() == s.len(),
            find_from(s@, p@, start as int) == find_from(s@, p@, i as int),
        decreases last - i,
    {
        if matches_at_chars(s, p, i) {
            return Some(i);
        }
        if i == last {
            assert(find_from(s@, p@, i + 1) is None);
            return None;
        }
        i += 1;
    }
}

pub fn find_chars(s: &Vec<char>, p: &Vec<char>) -> (res: Option<usize>)
    ensures
        match res {
            Some(k) => find(s@, p@) == Some(k as int),
            None => find(s@, p@) is None,
        },
{
    find_from_chars(s, p, 0)
}

pub fn contains_chars(s: &Vec<char>, p: &Vec<char>) -> (res: bool)
    ensures
        res == contains(s@, p@),
{
    find_chars(s, p).is_some()
}

pub fn starts_with_chars(s: &Vec<char>, p: &Vec<char>) -> (res: bool)
    ensures
        res == starts_with(s@, p@),
{
    let r = matches_at_chars(s, p, 0);
    proof {
        if r {
            assert(s@.subrange(0, p@.len() as int) =~= s@.take(p@.len() as int));
        }
        if starts_with(s@, p@) {
            assert(s@.subrange(0, p@.len() as int) =~= s@.take(p@.len() as int));
        }
    }
    r
}

pub fn ends_with_chars(s: &Vec<char>, p: &Vec<char>) -> (res: bool)
    ensures
        res == ends_with(s@, p@),
{
    if p.len() > s.len() {
        return false;
    }
    let r = matches_at_chars(s, p, s.len() - p.len());
    proof {
        let k = s@.len() - p@.len();
        assert(s@.subrange(k, k + p@.len()) =~= s@.skip(k));
    }
    r
}

/// `s` has some character for which the class test holds.
pub open spec fn has_char(s: Seq<char>, c: char) -> bool {
    exists|i: int| 0 <= i < s.len() && s[i] == c
}

pub fn has_char_chars(s: &Vec<char>, c: char) -> (res: bool)
    ensures
        res == has_char(s@, c),
{
    let mut i: usize = 0;
    while i < s.len()
        invariant
            i <= s.len(),
            forall|j: int| 0 <= j < i ==> s@[j] != c,
        decreases s.len() - i,
    {
        if s[i] == c {
            return true;
        }
        i += 1;
    }
    false
}

// ---------------------------------------------------------------------
// Replacing
// ---------------------------------------------------------------------

/// `str::replace(from, to)` for a non-empty `from`: every non-overlapping
/// occurrence, scanning left to right, is replaced.
pub open spec fn replace_all(s: Seq<char>, from: Seq<char>, to: Seq<char>) -> Seq<char>
    decreases s.len(),
{
    if from.len() == 0 {
        s
    } else {
        match find(s, from) {
            Some(i) => if 0 <= i && i + from.len() <= s.len() {
                s.take(i) + to + replace_all(s.skip(i + from.len()), from, to)
            } else {
                s
            },
            None => s,
        }
    }
}

/// Searching from `k` is searching the suffix that starts at `k`.
pub proof fn lemma_find_from_skip(s: Seq<char>, p: Seq<char>, k: int, j: int)
    requires
        0 <= k <= s.len(),
        0 <= j,
    ensures
        find_from(s, p, k + j) == (match find_from(s.skip(k), p, j) {
            Some(m) => Some(m + k),
            None => None::<int>,
        }),
    decreases s.len() + 1 - (k + j),
{
    let t = s.skip(k);
    if k + j + p.len() > s.len() {
    } else {
        assert(matches_at(s, p, k + j) == matches_at(t, p, j)) by {
            if k + j + p.len() <= s.len() {
                assert(s.subrange(k + j, k + j + p.len()) =~= t.subrange(j, j + p.len()));
            }
        }
        if !matches_at(s, p, k + j) {
            lemma_find_from_skip(s, p, k, j + 1);
        }
    }
}

pub fn replace_chars(s: &Vec<char>, from: &Vec<char>, to: &Vec<char>) -> (res: Vec<char>)
    requires
        from.len() > 0,
    ensures
        res@ == replace_all(s@, from@, to@),
{
    let mut out: Vec<char> = Vec::new();
    let mut pos: usize = 0;
    assert(s@.skip(0) =~= s@);
    loop
        invariant
            from.len() > 0,
            pos <= s.len(),
            out@ + replace_all(s@.skip(pos as int), from@, to@) == replace_all(s@, from@, to@),
        decreases s.len() - pos,
    {
        let found = find_from_chars(s, from, pos);
        proof {
            lemma_find_from_skip(s@, from@, pos as int, 0);
        }
        match found {
            None => {
                let rest = slice_chars(s, pos, s.len());
                push_all(&mut out, &rest);
                assert(rest@ =~= s@.skip(pos as int));
                return out;
            },
            Some(i) => {
                proof {
                    lemma_find_from_props(s@, from@, pos as int);
                }
                let head = slice_chars(s, pos, i);
                let ghost old_out = out@;
                push_all(&mut out, &head);
                push_all(&mut out, to);
                proof {
                    let t = s@.skip(pos as int);
                    let m = i - pos;
                    assert(t.take(m) =~= head@);
                    assert(t.skip(m + from@.len()) =~= s@.skip(i + from@.len()));
                    assert(out@ == old_out + head@ + to@);
                }
                pos = i + from.len();
            },
        }
    }
}

/// `to` before every character of `s` and once more at its end: what
/// `str::replace` does with an empty pattern.
pub open spec fn interleave(s: Seq<char>, to: Seq<char>) -> Seq<char>
    decreases s.len(),
{
    if s.len() == 0 {
        to
    } else {
        interleave(s.drop_last(), to) + seq![s.last()] + to
    }
}

/// `str::replace(from, to)`, the empty pattern included.
pub open spec fn str_replace(s: Seq<char>, from: Seq<char>, to: Seq<char>) -> Seq<char> {
    if from.len() == 0 {
        interleave(s, to)
    } else {
        replace_all(s, from, to)
    }
}

pub fn interleave_chars(s: &Vec<char>, to: &Vec<char>) -> (res: Vec<char>)
    ensures
        res@ == interleave(s@, to@),
{
    let mut out: Vec<char> = Vec::new();
    push_all(&mut out, to);
    assert(s@.take(0) =~= Seq::<char>::empty());
    for i in 0..s.len()
        invariant
            out@ == interleave(s@.take(i as int), to@),
    {
        out.push(s[i]);
        push_all(&mut out, to);
        assert(s@.take(i + 1).drop_last() =~= s@.take(i as int));
    }
    assert(s@.take(s.len() as int) =~= s@);
    out
}

/// `str::replace(from, to)` on character vectors.
pub fn str_replace_chars(s: &Vec<char>, from: &Vec<char>, to: &Vec<char>) -> (res: Vec<char>)
    ensures
        res@ == str_replace(s@, from@, to@),
{
    if from.len() == 0 {
        interleave_chars(s, to)
    } else {
        replace_chars(s, from, to)
    }
}

/// Replacing a pattern by a shorter one never makes the text longer, and
/// makes it strictly shorter when the pattern occurs.
pub proof fn lemma_replace_shrinks(s: Seq<char>, from: Seq<char>, to: Seq<char>)
    requires
        from.len() > to.len(),
    ensures
        replace_all(s, from, to).len() <= s.len(),
        contains(s, from) ==> replace_all(s, from, to).len() < s.len(),
    decreases s.len(),
{
    match find(s, from) {
        Some(i) => {
            lemma_find_from_props(s, from, 0);
            lemma_replace_shrinks(s.skip(i + from.len()), from, to);
        },
        None => {},
    }
}

/// Replace `pat` by the shorter `rep` until `pat` no longer occurs (the
/// `while s.contains(pat) { s = s.replace(pat, rep) }` idiom).
pub open spec fn collapse(s: Seq<char>, pat: Seq<char>, rep: Seq<char>) -> Seq<char>
    decreases s.len(),
{
    if pat.len() > rep.len() && contains(s, pat) {
        proof {
            lemma_replace_shrinks(s, pat, rep);
        }
        collapse(replace_all(s, pat, rep), pat, rep)
    } else {
        s
    }
}

pub proof fn lemma_collapse_free(s: Seq<char>, pat: Seq<char>, rep: Seq<char>)
    requires
        pat.len() > rep.len(),
    ensures
        !contains(collapse(s, pat, rep), pat),
    decreases s.len(),
{
    if contains(s, pat) {
        lemma_replace_shrinks(s, pat, rep);
        lemma_collapse_free(replace_all(s, pat, rep), pat, rep);
    }
}

pub fn collapse_chars(s: &Vec<char>, pat: &Vec<char>, rep: &Vec<char>) -> (res: Vec<char>)
    requires
        pat.len() > rep.len(),
    ensures
        res@ == collapse(s@, pat@, rep@),
{
    let mut out = s.clone();
    assert(out@ == s@);
    while contains_chars(&out, pat)
        invariant
            pat.len() > rep.len(),
            collapse(out@, pat@, rep@) == collapse(s@, pat@, rep@),
        decreases out@.len(),
    {
        proof {
            lemma_replace_shrinks(out@, pat@, rep@);
        }
        out = replace_chars(&out, pat, rep);
    }
    out
}

// ---------------------------------------------------------------------
// String helpers
// ---------------------------------------------------------------------

/// Append the characters of `s` to `out`.
pub fn push_str(out: &mut Vec<char>, s: &str)
    ensures
        final(out)@ == old(out)@ + s@,
{
    let cs = chars_of(s);
    push_all(out, &cs);
}

/// `a == b` on string slices.
pub fn str_eq(a: &str, b: &str) -> (res: bool)
    ensures
        res == (a@ == b@),
{
    let x = chars_of(a);
    let y = chars_of(b);
    chars_eq(&x, &y)
}

/// `a` followed by `b`.
pub fn cat2(a: &str, b: &str) -> (res: String)
    ensures
        res@ == a@ + b@,
{
    let mut v: Vec<char> = Vec::new();
    push_str(&mut v, a);
    push_str(&mut v, b);
    string_of(&v)
}

/// `a`, `b` and `c` in order.
pub fn cat3(a: &str, b: &str, c: &str) -> (res: String)
    ensures
        res@ == a@ + b@ + c@,
{
    let mut v: Vec<char> = Vec::new();
    push_str(&mut v, a);
    push_str(&mut v, b);
    push_str(&mut v, c);
    string_of(&v)
}

/// `a`, `b`, `c` and `d` in order.
pub fn cat4(a: &str, b: &str, c: &str, d: &str) -> (res: String)
    ensures
        res@ == a@ + b@ + c@ + d@,
{
    let mut v: Vec<char> = Vec::new();
    push_str(&mut v, a);
    push_str(&mut v, b);
    push_str(&mut v, c);
    push_str(&mut v, d);
    string_of(&v)
}

/// A fresh copy of an optional string.
pub fn copy_opt_string(s: &Option<String>) -> (res: Option<String>)
    ensures
        res == *s,
{
    match s {
        Some(v) => Some(v.clone()),
        None => None,
    }
}

// ---------------------------------------------------------------------
// Lines
// ---------------------------------------------------------------------

/// One line as `str::lines` yields it: a segment that ended with `'\n'`
/// loses that `'\n'` and then one `'\r'` before it, if any.
pub open spec fn strip_line_end(seg: Seq<char>) -> Seq<char> {
    if seg.len() > 0 && seg.last() == '\r' {
        seg.drop_last()
    } else {
        seg
    }
}

/// `str::lines`: split at `'\n'`; a final line ending yields no empty line.
pub open spec fn lines(s: Seq<char>) -> Seq<Seq<char>>
    decreases s.len(),
{
    if s.len() == 0 {
        Seq::empty()
    } else {
        match find(s, seq!['\n']) {
            Some(i) => if 0 <= i < s.len() {
                seq![strip_line_end(s.take(i))] + lines(s.skip(i + 1))
            } else {
                seq![s]
            },
            None => seq![s],
        }
    }
}

pub fn lines_of(s: &Vec<char>) -> (res: Vec<Vec<char>>)
    ensures
        res@.map_values(|l: Vec<char>| l@) == lines(s@),
{
    let mut out: Vec<Vec<char>> = Vec::new();
    let mut pos: usize = 0;
    let nl = char_vec1('\n');
    assert(s@.skip(0) =~= s@);
    loop
        invariant
            pos <= s.len(),
            nl@ == seq!['\n'],
            out@.map_values(|l: Vec<char>| l@) + lines(s@.skip(pos as int)) == lines(s@),
        decreases s.len() - pos,
    {
        let ghost old_view = out@.map_values(|l: Vec<char>| l@);
        if pos == s.len() {
            proof {
                assert(lines(s@.skip(pos as int)) =~= Seq::<Seq<char>>::empty());
                assert(old_view + Seq::<Seq<char>>::empty() =~= old_view);
            }
            return out;
        }
        let found = find_from_chars(s, &nl, pos);
        proof {
            lemma_find_from_skip(s@, nl@, pos as int, 0);
        }
        match found {
            None => {
                let rest = slice_chars(s, pos, s.len());
                out.push(rest);
                proof {
                    assert(rest@ =~= s@.skip(pos as int));
                    assert(out@.map_values(|l: Vec<char>| l@) =~= old_view.push(rest@));
                    assert(lines(s@.skip(pos as int)) == seq![s@.skip(pos as int)]);
                    assert(old_view.push(rest@) =~= old_view + seq![rest@]);
                }
                return out;
            },
            Some(i) => {
                proof {
                    lemma_find_from_props(s@, nl@, pos as int);
                }
                let mut end = i;
                if end > pos && s[end - 1] == '\r' {
                    end = end - 1;
                }
                let line = slice_chars(s, pos, end);
                out.push(line);
                proof {
                    let t = s@.skip(pos as int);
                    let m = i - pos;
                    assert(t.take(m) =~= s@.subrange(pos as int, i as int));
                    assert(line@ =~= strip_line_end(t.take(m)));
                    assert(t.skip(m + 1) =~= s@.skip(i + 1));
                    assert(out@.map_values(|l: Vec<char>| l@) =~= old_view.push(line@));
                    assert(old_view.push(line@) + lines(s@.skip(i + 1)) =~= old_view + (seq![
                        line@,
                    ] + lines(s@.skip(i + 1))));
                }
                pos = i + 1;
            },
        }
    }
}

// ---------------------------------------------------------------------
// Words and joining
// ---------------------------------------------------------------------

/// Index of the first whitespace character of `s`, or its length.
pub open spec fn first_ws(s: Seq<char>) -> int
    decreases s.len(),
{
    if s.len() == 0 || is_ws(s[0]) {
        0
    } else {
        1 + first_ws(s.drop_first())
    }
}

pub proof fn lemma_first_ws(s: Seq<char>)
    ensures
        0 <= first_ws(s) <= s.len(),
        forall|i: int| 0 <= i < first_ws(s) ==> !is_ws(#[trigger] s[i]),
        first_ws(s) < s.len() ==> is_ws(s[first_ws(s)]),
    decreases s.len(),
{
    if s.len() > 0 && !is_ws(s[0]) {
        lemma_first_ws(s.drop_first());
        assert forall|i: int| 0 <= i < first_ws(s) implies !is_ws(#[trigger] s[i]) by {
            if i > 0 {
                assert(s[i] == s.drop_first()[i - 1]);
            }
        }
    }
}

pub proof fn lemma_trim_start_len(s: Seq<char>, t: Trim)
    ensures
        trim_start(s, t).len() <= s.len(),
        trim_start(s, t).len() > 0 ==> !in_trim(t, trim_start(s, t)[0]),
        s == s.take(s.len() - trim_start(s, t).len()) + trim_start(s, t),
    decreases s.len(),
{
    if s.len() > 0 && in_trim(t, s[0]) {
        lemma_trim_start_len(s.drop_first(), t);
        let r = trim_start(s.drop_first(), t);
        assert(s =~= seq![s[0]] + s.drop_first());
        assert(s.take(s.len() - r.len()) =~= seq![s[0]] + s.drop_first().take(
            s.drop_first().len() - r.len(),
        ));
    } else {
        assert(s.take(0) + s =~= s);
    }
}

/// `str::split_whitespace`: the maximal runs of non-whitespace characters.
pub open spec fn words(s: Seq<char>) -> Seq<Seq<char>>
    decreases s.len(),
{
    let t = trim_start(s, Trim::Ws);
    if t.len() == 0 {
        Seq::empty()
    } else {
        let k = first_ws(t);
        proof {
            lemma_trim_start_len(s, Trim::Ws);
            lemma_first_ws(t);
        }
        if 0 < k {
            seq![t.take(k)] + words(t.skip(k))
        } else {
            Seq::empty()
        }
    }
}

/// Every word has at least one character.
pub proof fn lemma_words_nonempty(s: Seq<char>)
    ensures
        forall|i: int| 0 <= i < words(s).len() ==> #[trigger] words(s)[i].len() > 0,
    decreases s.len(),
{
    let t = trim_start(s, Trim::Ws);
    lemma_trim_start_len(s, Trim::Ws);
    if t.len() > 0 {
        lemma_first_ws(t);
        let k = first_ws(t);
        if 0 < k {
            lemma_words_nonempty(t.skip(k));
            let w = words(s);
            assert forall|i: int| 0 <= i < w.len() implies #[trigger] w[i].len() > 0 by {
                if i > 0 {
                    assert(w[i] == words(t.skip(k))[i - 1]);
                }
            }
        }
    }
}

/// `parts` joined with `sep` between neighbours (`[T]::join`).
pub open spec fn join(parts: Seq<Seq<char>>, sep: Seq<char>) -> Seq<char>
    decreases parts.len(),
{
    if parts.len() == 0 {
        Seq::empty()
    } else if parts.len() == 1 {
        parts[0]
    } else {
        join(parts.drop_last(), sep) + sep + parts.last()
    }
}

pub fn first_ws_chars(s: &Vec<char>) -> (res: usize)
    ensures
        res == first_ws(s@),
{
    let mut i: usize = 0;
    proof {
        lemma_first_ws(s@);
    }
    while i < s.len() && !is_ws_char(s[i])
        invariant
            i <= s.len(),
            forall|j: int| 0 <= j < i ==> !is_ws(#[trigger] s@[j]),
            0 <= first_ws(s@) <= s.len(),
            forall|j: int| 0 <= j < first_ws(s@) ==> !is_ws(#[trigger] s@[j]),
            first_ws(s@) < s.len() ==> is_ws(s@[first_ws(s@)]),
        decreases s.len() - i,
    {
        i += 1;
    }
    i
}

pub fn words_of(s: &Vec<char>) -> (res: Vec<Vec<char>>)
    ensures
        res@.map_values(|w: Vec<char>| w@) == words(s@),
    decreases s.len(),
{
    let t = trim_start_chars(s, Trim::Ws);
    if t.len() == 0 {
        let res: Vec<Vec<char>> = Vec::new();
        assert(res@.map_values(|w: Vec<char>| w@) =~= Seq::<Seq<char>>::empty());
        return res;
    }
    proof {
        lemma_trim_start_len(s@, Trim::Ws);
        lemma_first_ws(t@);
    }
    let k = first_ws_chars(&t);
    let w = slice_chars(&t, 0, k);
    let rest = slice_chars(&t, k, t.len());
    let tail = words_of(&rest);
    let mut res: Vec<Vec<char>> = Vec::new();
    res.push(w);
    let mut i: usize = 0;
    while i < tail.len()
        invariant
            0 <= i <= tail.len(),
            res@.len() == i + 1,
            res@[0]@ == t@.take(k as int),
            forall|j: int| 0 <= j < i ==> #[trigger] res@[j + 1]@ == tail@[j]@,
        decreases tail.len() - i,
    {
        let x = slice_chars(&tail[i], 0, tail[i].len());
        res.push(x);
        proof {
            assert(x@ =~= tail@[i as int]@);
        }
        i += 1;
    }
    proof {
        assert(rest@ =~= t@.skip(k as int));
        assert(w@ =~= t@.take(k as int));
        let tv = tail@.map_values(|w: Vec<char>| w@);
        assert(tv == words(t@.skip(k as int)));
        let rv = res@.map_values(|w: Vec<char>| w@);
        assert(rv =~= seq![t@.take(k as int)] + tv) by {
            assert forall|j: int| 0 <= j < rv.len() implies #[trigger] rv[j] == (seq![
                t@.take(k as int),
            ] + tv)[j] by {
                if j > 0 {
                    assert(res@[(j - 1) + 1]@ == tail@[j - 1]@);
                }
            }
        }
    }
    res
}

pub fn join_chars(parts: &Vec<Vec<char>>, sep: &Vec<char>) -> (res: Vec<char>)
    ensures
        res@ == join(parts@.map_values(|p: Vec<char>| p@), sep@),
{
    let ghost pv = parts@.map_values(|p: Vec<char>| p@);
    let mut out: Vec<char> = Vec::new();
    let mut i: usize = 0;
    while i < parts.len()
        invariant
            i <= parts.len(),
            pv == parts@.map_values(|p: Vec<char>| p@),
            out@ == join(pv.take(i as int), sep@),
        decreases parts.len() - i,
    {
        if i > 0 {
            push_all(&mut out, sep);
        }
        push_all(&mut out, &parts[i]);
        proof {
            assert(pv.take(i + 1).drop_last() =~= pv.take(i as int));
            assert(pv.take(i + 1).last() == parts@[i as int]@);
            if i == 0 {
                assert(out@ =~= pv.take(1)[0]);
            }
        }
        i += 1;
    }
    assert(pv.take(parts.len() as int) =~= pv);
    out
}

/// `str::replacen(from, to, 1)` for a non-empty `from`.
pub open spec fn replace_first(s: Seq<char>, from: Seq<char>, to: Seq<char>) -> Seq<char> {
    match find(s, from) {
        Some(i) => if 0 <= i && i + from.len() <= s.len() {
            s.take(i) + to + s.skip(i + from.len())
        } else {
            s
        },
        None => s,
    }
}

pub fn replace_first_chars(s: &Vec<char>, from: &Vec<char>, to: &Vec<char>) -> (res: Vec<char>)
    ensures
        res@ == replace_first(s@, from@, to@),
{
    match find_chars(s, from) {
        None => slice_chars(s, 0, s.len()),
        Some(i) => {
            proof {
                lemma_find_from_props(s@, from@, 0);
                assert(matches_at(s@, from@, i as int));
            }
            let a = slice_chars(s, 0, i);
            let b = slice_chars(s, i + from.len(), s.len());
            let mut out = a;
            push_all(&mut out, to);
            push_all(&mut out, &b);
            proof {
                assert(out@ =~= s@.take(i as int) + to@ + s@.skip(i + from@.len()));
            }
            out
        },
    }
}

/// A one-character vector.
pub fn char_vec1(a: char) -> (res: Vec<char>)
    ensures
        res@ == seq![a],
{
    let mut v: Vec<char> = Vec::new();
    v.push(a);
    assert(v@ =~= seq![a]);
    v
}

/// A two-character vector.
pub fn char_vec2(a: char, b: char) -> (res: Vec<char>)
    ensures
        res@ == seq![a, b],
{
    let mut v: Vec<char> = Vec::new();
    v.push(a);
    v.push(b);
    assert(v@ =~= seq![a, b]);
    v
}

} // verus!
