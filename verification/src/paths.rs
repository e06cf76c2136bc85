//! Decisions behind the configured file locations: where `%VAR%` and a
//! leading `~` are expanded, and which source wins for the config file
//! and the index database. The environment itself is read by the caller.

use crate::text::{
    chars_of, find, find_chars, find_from, find_from_chars, lemma_find_from_props,
    slice_chars, starts_with, starts_with_chars, str_eq, string_of, trim, trim_chars,
    trim_start, trim_start_chars, Trim,
};
use vstd::prelude::*;

verus! {

/// The first `%NAME%` segment of `s`: the text before it, the name, and
/// the text after it.
pub open spec fn env_var_split(s: Seq<char>) -> Option<(Seq<char>, Seq<char>, Seq<char>)> {
    match find(s, "%"@) {
        None => None,
        Some(a) => match find_from(s, "%"@, a + 1) {
            None => None,
            Some(b) => Some((s.take(a), s.subrange(a + 1, b), s.skip(b + 1))),
        },
    }
}

/// Split off the first `%NAME%` segment of `s`, if it has one; the caller
/// puts the variable's value between the two outer parts and asks again.
pub fn split_env_var(s: &str) -> (res: Option<(String, String, String)>)
    ensures
        match env_var_split(s@) {
            None => res is None,
            Some((pre, name, post)) => res matches Some((p, n, q)) && p@ == pre && n@ == name
                && q@ == post,
        },
{
    let v = chars_of(s);
    let pct = chars_of("%");
    let n = v.len();
    proof {
        reveal_strlit("%");
    }
    match find_chars(&v, &pct) {
        None => None,
        Some(a) => {
            proof {
                lemma_find_from_props(v@, pct@, 0);
                assert(pct@.len() == 1);
                assert(matches_at_pct(v@, a as int));
                assert(a + 1 <= n);
            }
            match find_from_chars(&v, &pct, a + 1) {
                None => None,
                Some(b) => {
                    proof {
                        lemma_find_from_props(v@, pct@, a + 1);
                    }
                    let pre = slice_chars(&v, 0, a);
                    let name = slice_chars(&v, a + 1, b);
                    let post = slice_chars(&v, b + 1, v.len());
                    proof {
                        assert(pre@ =~= v@.take(a as int));
                        assert(post@ =~= v@.skip(b + 1));
                    }
                    Some((string_of(&pre), string_of(&name), string_of(&post)))
                },
            }
        },
    }
}

/// Splitting off a `%NAME%` segment loses nothing: the parts put back
/// together with the two `%` give the input, and neither the text before
/// the segment nor the name holds a `%`.
pub proof fn law_env_var_split_reassembles(s: Seq<char>)
    ensures
        env_var_split(s) matches Some((pre, name, post)) ==> {
            &&& pre + "%"@ + name + "%"@ + post == s
            &&& !pre.contains('%')
            &&& !name.contains('%')
        },
{
    reveal_strlit("%");
    if let Some((pre, name, post)) = env_var_split(s) {
        let a = find(s, "%"@)->0;
        let b = find_from(s, "%"@, a + 1)->0;
        lemma_find_from_props(s, "%"@, 0);
        lemma_find_from_props(s, "%"@, a + 1);
        assert(s.subrange(a, a + 1) =~= "%"@);
        assert(s.subrange(b, b + 1) =~= "%"@);
        assert(s[a] == '%') by {
            assert(s.subrange(a, a + 1)[0] == s[a]);
        }
        assert(s[b] == '%') by {
            assert(s.subrange(b, b + 1)[0] == s[b]);
        }
        assert(pre + "%"@ + name + "%"@ + post =~= s);
        assert forall|i: int| 0 <= i < pre.len() implies pre[i] != '%' by {
            if pre[i] == '%' {
                assert(s.subrange(i, i + 1) =~= "%"@);
                assert(matches_at_pct(s, i));
            }
        }
        assert forall|i: int| 0 <= i < name.len() implies name[i] != '%' by {
            if name[i] == '%' {
                assert(s[a + 1 + i] == '%');
                assert(s.subrange(a + 1 + i, a + 2 + i) =~= "%"@);
                assert(matches_at_pct(s, a + 1 + i));
            }
        }
    }
}

spec fn matches_at_pct(s: Seq<char>, i: int) -> bool {
    crate::text::matches_at(s, "%"@, i)
}

/// Where a path that starts with `~` continues below the home directory:
/// for `~`, `~/...` and `~\...`, the rest without its leading slashes.
pub open spec fn tilde_tail(s: Seq<char>) -> Option<Seq<char>> {
    if s == "~"@ || starts_with(s, "~/"@) || starts_with(s, "~\\"@) {
        Some(trim_start(s.skip(1), Trim::Slashes))
    } else {
        None
    }
}

/// The part of a `~` path below the home directory, or `None` when the
/// path does not start with the home shorthand.
pub fn tilde_rest(s: &str) -> (res: Option<String>)
    ensures
        match tilde_tail(s@) {
            None => res is None,
            Some(t) => res matches Some(r) && r@ == t,
        },
{
    let v = chars_of(s);
    if str_eq(s, "~") || starts_with_chars(&v, &chars_of("~/")) || starts_with_chars(
        &v,
        &chars_of("~\\"),
    ) {
        proof {
            reveal_strlit("~");
            reveal_strlit("~/");
            reveal_strlit("~\\");
        }
        let rest = slice_chars(&v, 1, v.len());
        proof {
            assert(rest@ =~= v@.skip(1));
        }
        let t = trim_start_chars(&rest, Trim::Slashes);
        Some(string_of(&t))
    } else {
        None
    }
}

/// A setting that counts: present and not empty.
pub open spec fn present(v: Option<&str>) -> bool {
    v matches Some(e) && e@.len() > 0
}

/// A configured path that is there and not blank.
pub open spec fn not_blank(v: Option<&str>) -> bool {
    v matches Some(db) && trim(db@, Trim::Ws).len() > 0
}

/// Which source decides a file location.
#[derive(Debug, Clone, PartialEq, Eq)]
pub enum PathSource {
    /// An explicit path, used as it is.
    Given(String),
    /// A configured path, to be expanded first.
    Configured(String),
    /// The portable location next to the executable.
    Portable,
    /// The platform's default location.
    PlatformDefault,
}


/// Choose where the index database lives: the command line, then the
/// environment variable (unless empty), then the configured path (unless
/// blank), then the portable location in portable mode, then the platform
/// default.
pub fn database_source(
    cli: Option<&str>,
    env: Option<&str>,
    config_db: Option<&str>,
    portable: bool,
) -> (res: PathSource)
    ensures
        res is Given <==> (cli is Some || present(env)),
        cli matches Some(c) ==> (res matches PathSource::Given(p) && p@ == c@),
        cli is None && present(env) ==> (res matches PathSource::Given(
            p) && p@ == env->0@),
        !(res is Given) && not_blank(config_db) ==> (res matches PathSource::Configured(
            p) && p@ == config_db->0@),
        !(res is Given) && !not_blank(config_db) ==> (
        res is Portable <==> portable) && (res is PlatformDefault <==> !portable),
{
    if let Some(c) = cli {
        return PathSource::Given(string_of(&chars_of(c)));
    }
    if let Some(e) = env {
        if !e.is_empty() {
            return PathSource::Given(string_of(&chars_of(e)));
        }
    }
    if let Some(db) = config_db {
        let t = trim_chars(&chars_of(db), Trim::Ws);
        if t.len() > 0 {
            return PathSource::Configured(string_of(&chars_of(db)));
        }
    }
    if portable {
        PathSource::Portable
    } else {
        PathSource::PlatformDefault
    }
}

/// Choose where the config file lives: the command line, then the
/// environment variable (unless empty), then the portable marker file when
/// it exists, then the platform default.
pub fn config_source(cli: Option<&str>, env: Option<&str>, portable_exists: bool) -> (res:
    PathSource)
    ensures
        cli matches Some(c) ==> (res matches PathSource::Given(p) && p@ == c@),
        cli is None && present(env) ==> (res matches PathSource::Given(
            p) && p@ == env->0@),
        cli is None && !present(env) ==> (res is Portable
            <==> portable_exists) && (res is PlatformDefault <==> !portable_exists),
        !(res is Configured),
{
    if let Some(c) = cli {
        return PathSource::Given(string_of(&chars_of(c)));
    }
    if let Some(e) = env {
        if !e.is_empty() {
            return PathSource::Given(string_of(&chars_of(e)));
        }
    }
    if portable_exists {
        PathSource::Portable
    } else {
        PathSource::PlatformDefault
    }
}

} // verus!
