//! Decimal integers in text, read as Rust's `FromStr` reads them.

use crate::text::is_ascii_digit;
use vstd::prelude::*;

verus! {

pub open spec fn digit_value(c: char) -> int {
    (c as int) - ('0' as int)
}

pub open spec fn all_digits(s: Seq<char>) -> bool {
    forall|i: int| 0 <= i < s.len() ==> is_ascii_digit(#[trigger] s[i])
}

/// The value of a string of decimal digits.
pub open spec fn digits_value(s: Seq<char>) -> int
    decreases s.len(),
{
    if s.len() == 0 {
        0
    } else {
        digits_value(s.drop_last()) * 10 + digit_value(s.last())
    }
}

/// `i64::from_str`/`u64::from_str` up to range: an optional `+` (or `-`
/// when `signed`), then at least one ASCII digit.
pub open spec fn int_text(s: Seq<char>, signed: bool) -> Option<int> {
    let neg = s.len() > 0 && s[0] == '-' && signed;
    let ds = if s.len() > 0 && (s[0] == '+' || (signed && s[0] == '-')) {
        s.skip(1)
    } else {
        s
    };
    if ds.len() > 0 && all_digits(ds) {
        Some(
            if neg {
                -digits_value(ds)
            } else {
                digits_value(ds)
            },
        )
    } else {
        None
    }
}

/// `i64::from_str`.
pub open spec fn parse_i64_spec(s: Seq<char>) -> Option<i64> {
    match int_text(s, true) {
        Some(v) => if i64::MIN <= v <= i64::MAX {
            Some(v as i64)
        } else {
            None
        },
        None => None,
    }
}

proof fn lemma_digits_value_nonneg(s: Seq<char>)
    requires
        all_digits(s),
    ensures
        digits_value(s) >= 0,
    decreases s.len(),
{
    if s.len() > 0 {
        assert(all_digits(s.drop_last())) by {
            assert forall|i: int| 0 <= i < s.drop_last().len() implies is_ascii_digit(
                #[trigger] s.drop_last()[i],
            ) by {
                assert(s.drop_last()[i] == s[i]);
            }
        }
        lemma_digits_value_nonneg(s.drop_last());
        assert(is_ascii_digit(s[s.len() - 1]));
    }
}

proof fn lemma_digits_value_prefix(s: Seq<char>, k: int)
    requires
        all_digits(s),
        0 <= k <= s.len(),
    ensures
        digits_value(s.take(k)) <= digits_value(s),
    decreases s.len() - k,
{
    if k < s.len() {
        lemma_digits_value_prefix(s, k + 1);
        assert(s.take(k + 1).drop_last() =~= s.take(k));
        assert(all_digits(s.take(k))) by {
            assert forall|i: int| 0 <= i < k implies is_ascii_digit(#[trigger] s.take(k)[i]) by {
                assert(s.take(k)[i] == s[i]);
            }
        }
        lemma_digits_value_nonneg(s.take(k));
        assert(is_ascii_digit(s[k]));
        assert(s.take(k + 1).last() == s[k]);
    } else {
        assert(s.take(k) =~= s);
    }
}

/// Accumulate the digits of `s[start..]`; `None` when not all digits, when
/// there are none, or when the value exceeds `bound`.
fn digits_upto(s: &Vec<char>, start: usize, bound: u64) -> (res: Option<u64>)
    requires
        start <= s.len(),
        bound >= 9,
    ensures
        match res {
            Some(v) => s@.skip(start as int).len() > 0 && all_digits(s@.skip(start as int)) && v
                == digits_value(s@.skip(start as int)) && v <= bound,
            None => !(s@.skip(start as int).len() > 0 && all_digits(s@.skip(start as int))
                && digits_value(s@.skip(start as int)) <= bound),
        },
{
    let ghost ds = s@.skip(start as int);
    if start == s.len() {
        return None;
    }
    let mut acc: u64 = 0;
    let mut i = start;
    while i < s.len()
        invariant
            start <= i <= s.len(),
            ds == s@.skip(start as int),
            all_digits(ds.take(i - start)),
            acc == digits_value(ds.take(i - start)),
            acc <= bound,
            bound >= 9,
        decreases s.len() - i,
    {
        let c = s[i];
        if !('0' <= c && c <= '9') {
            proof {
                assert(ds[i - start] == c);
            }
            return None;
        }
        let d = (c as u64) - ('0' as u64);
        proof {
            assert(ds.take(i - start + 1).drop_last() =~= ds.take(i - start));
            assert(ds.take(i - start + 1).last() == c);
            assert(all_digits(ds.take(i - start + 1))) by {
                assert forall|j: int| 0 <= j < i - start + 1 implies is_ascii_digit(
                    #[trigger] ds.take(i - start + 1)[j],
                ) by {
                    if j < i - start {
                        assert(ds.take(i - start + 1)[j] == ds.take(i - start)[j]);
                    }
                }
            }
        }
        if acc > (bound - d) / 10 {
            proof {
                let t = ds.take(i - start + 1);
                assert(digits_value(t) == acc * 10 + d);
                assert(acc * 10 + d > bound) by (nonlinear_arith)
                    requires
                        acc > (bound - d) / 10,
                        d <= 9,
                        d <= bound,
                ;
                if all_digits(ds) {
                    lemma_digits_value_prefix(ds, i - start + 1);
                }
            }
            return None;
        }
        proof {
            assert(acc * 10 + d <= bound) by (nonlinear_arith)
                requires
                    acc <= (bound - d) / 10,
                    d <= bound,
            ;
        }
        acc = acc * 10 + d;
        i += 1;
    }
    proof {
        assert(ds.take(i - start) =~= ds);
    }
    Some(acc)
}

/// `usize::from_str`.
pub open spec fn parse_usize_spec(s: Seq<char>) -> Option<usize> {
    match int_text(s, false) {
        Some(v) => if 0 <= v <= usize::MAX {
            Some(v as usize)
        } else {
            None
        },
        None => None,
    }
}

/// `usize::from_str` on a character vector.
pub fn parse_usize_chars(v: &Vec<char>) -> (res: Option<usize>)
    ensures
        res == parse_usize_spec(v@),
{
    let start: usize = if v.len() > 0 && v[0] == '+' {
        1
    } else {
        0
    };
    proof {
        if start == 0 {
            assert(v@.skip(0) =~= v@);
        }
    }
    let bound = usize::MAX as u64;
    match digits_upto(v, start, bound) {
        Some(x) => Some(x as usize),
        None => None,
    }
}

/// `i64::from_str` on a character vector.
pub fn parse_i64_chars(v: &Vec<char>) -> (res: Option<i64>)
    ensures
        res == parse_i64_spec(v@),
{
    let neg = v.len() > 0 && v[0] == '-';
    let start: usize = if v.len() > 0 && (v[0] == '+' || v[0] == '-') {
        1
    } else {
        0
    };
    proof {
        if start == 0 {
            assert(v@.skip(0) =~= v@);
        }
    }
    let bound: u64 = if neg {
        0x8000_0000_0000_0000
    } else {
        0x7fff_ffff_ffff_ffff
    };
    match digits_upto(v, start, bound) {
        Some(x) => {
            if neg {
                if x == 0x8000_0000_0000_0000 {
                    Some(i64::MIN)
                } else {
                    Some(-(x as i64))
                }
            } else {
                Some(x as i64)
            }
        },
        None => None,
    }
}

/// The decimal digits of `n`, most significant first, no leading zeros.
pub open spec fn dec(n: nat) -> Seq<char>
    decreases n,
{
    if n < 10 {
        seq![(48 + n) as char]
    } else {
        dec(n / 10) + seq![(48 + n % 10) as char]
    }
}

/// `i64` as `Display` prints it.
pub open spec fn i64_text(v: i64) -> Seq<char> {
    if v < 0 {
        seq!['-'] + dec((-v) as nat)
    } else {
        dec(v as nat)
    }
}

fn dec_chars(n: u64) -> (res: Vec<char>)
    ensures
        res@ == dec(n as nat),
    decreases n,
{
    if n < 10 {
        let mut v: Vec<char> = Vec::new();
        v.push((48 + n as u8) as char);
        assert(v@ =~= dec(n as nat));
        v
    } else {
        let mut v = dec_chars(n / 10);
        let d = (n % 10) as u8;
        v.push((48 + d) as char);
        assert(v@ =~= dec(n as nat));
        v
    }
}

/// The text of an `i64`, as `to_string` gives it.
pub fn i64_to_chars(v: i64) -> (res: Vec<char>)
    ensures
        res@ == i64_text(v),
{
    if v < 0 {
        let m: u64 = (-(v as i128)) as u64;
        let mut out: Vec<char> = Vec::new();
        out.push('-');
        let d = dec_chars(m);
        crate::text::push_all(&mut out, &d);
        assert(out@ =~= i64_text(v));
        out
    } else {
        dec_chars(v as u64)
    }
}

proof fn lemma_dec(n: nat)
    ensures
        dec(n).len() >= 1,
        all_digits(dec(n)),
        digits_value(dec(n)) == n,
    decreases n,
{
    if n >= 10 {
        lemma_dec(n / 10);
        let d = dec(n);
        assert(d.drop_last() =~= dec(n / 10));
        assert(all_digits(d)) by {
            assert forall|i: int| 0 <= i < d.len() implies is_ascii_digit(#[trigger] d[i]) by {
                if i < d.len() - 1 {
                    assert(d[i] == dec(n / 10)[i]);
                }
            }
        }
        let r = n % 10;
        assert(d.last() == ((48 + r) as char));
        assert(((48 + r) as char) as int == 48 + r);
        assert(digit_value(d.last()) == n % 10);
        assert(digits_value(d) == digits_value(d.drop_last()) * 10 + digit_value(d.last()));
        assert((n / 10) * 10 + n % 10 == n) by (nonlinear_arith);
        assert(digits_value(d.drop_last()) == n / 10);
        assert(digits_value(d) == n);
    } else {
        let d = dec(n);
        assert(d.drop_last() =~= Seq::<char>::empty());
        assert(((48 + n) as char) as int == 48 + n);
        assert(digits_value(d.drop_last()) == 0);
        assert(d.last() == ((48 + n) as char));
        assert(digits_value(d) == n);
    }
}

/// The characters of a printed `i64`: a minus sign or digits, a digit last.
pub proof fn lemma_i64_text_chars(v: i64)
    ensures
        i64_text(v).len() >= 1,
        forall|i: int|
            0 <= i < i64_text(v).len() ==> is_ascii_digit(#[trigger] i64_text(v)[i])
                || i64_text(v)[i] == '-',
        is_ascii_digit(i64_text(v)[0]) || i64_text(v)[0] == '-',
        is_ascii_digit(i64_text(v).last()),
{
    if v < 0 {
        lemma_dec((-v) as nat);
        let s = i64_text(v);
        assert forall|i: int| 0 <= i < s.len() implies is_ascii_digit(#[trigger] s[i]) || s[i]
            == '-' by {
            if i > 0 {
                assert(s[i] == dec((-v) as nat)[i - 1]);
            }
        }
        assert(s.last() == dec((-v) as nat).last());
    } else {
        lemma_dec(v as nat);
    }
}

/// Printing an `i64` and reading the text back gives the number.
pub proof fn law_i64_text_roundtrip(v: i64)
    ensures
        parse_i64_spec(i64_text(v)) == Some(v),
{
    if v < 0 {
        let n = (-v) as nat;
        lemma_dec(n);
        let s = i64_text(v);
        assert(s.skip(1) =~= dec(n));
        assert(s[0] == '-');
    } else {
        lemma_dec(v as nat);
        let s = dec(v as nat);
        assert(is_ascii_digit(s[0]));
    }
}

} // verus!
