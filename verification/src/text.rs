//! Character-level string operations the corpus loader and the search rely
//! on: locating a separator, decimal parsing, substring containment, and
//! lowercase folding.
use vstd::prelude::*;
use vstd::string::{StrSliceExecFns, StringExecFns};

verus! {

/// Index of the first occurrence of `sep` in `s`, or -1 when `sep` does not
/// occur.
pub open spec fn find_char(s: Seq<char>, sep: char) -> int
    decreases s.len(),
{
    if s.len() == 0 {
        -1
    } else if s[0] == sep {
        0
    } else {
        let r = find_char(s.drop_first(), sep);
        if r < 0 {
            -1
        } else {
            r + 1
        }
    }
}

/// A scan that saw no `sep` before `i`, and `sep` at `i` if `i` is in
/// bounds, determines `find_char` exactly.
proof fn lemma_find_char_at(s: Seq<char>, sep: char, i: int)
    requires
        0 <= i <= s.len(),
        forall|j: int| 0 <= j < i ==> s[j] != sep,
        i < s.len() ==> s[i] == sep,
    ensures
        find_char(s, sep) == if i < s.len() {
            i
        } else {
            -1
        },
    decreases s.len(),
{
    if s.len() == 0 {
    } else if i == 0 {
    } else {
        assert(s[0] != sep);
        assert(forall|j: int| 0 <= j < i - 1 ==> s.drop_first()[j] == s[j + 1]);
        lemma_find_char_at(s.drop_first(), sep, i - 1);
    }
}

/// Splits `s` at the first occurrence of `sep`, the separator itself kept in
/// neither part; `None` when `sep` does not occur.
pub fn split_first<'a>(s: &'a str, sep: char) -> (r: Option<(&'a str, &'a str)>)
    ensures
        ({
            let i = find_char(s@, sep);
            match r {
                Some(p) => 0 <= i < s@.len() && p.0@ == s@.subrange(0, i) && p.1@ == s@.subrange(
                    i + 1,
                    s@.len() as int,
                ),
                None => i == -1,
            }
        }),
{
    let len = s.unicode_len();
    let mut i: usize = 0;
    while i < len
        invariant
            i <= len,
            len == s@.len(),
            forall|j: int| 0 <= j < i ==> s@[j] != sep,
        decreases len - i,
    {
        if s.get_char(i) == sep {
            proof {
                lemma_find_char_at(s@, sep, i as int);
            }
            let a = s.substring_char(0, i);
            let b = s.substring_char(i + 1, len);
            return Some((a, b));
        }
        i += 1;
    }
    proof {
        lemma_find_char_at(s@, sep, len as int);
    }
    None
}

/// A decimal digit, by its scalar value.
pub open spec fn is_digit_char(c: char) -> bool {
    48 <= c as u32 <= 57
}

/// The numeric value of a digit character; 0 for anything else.
pub open spec fn digit_val(c: char) -> nat {
    if is_digit_char(c) {
        (c as u32 - 48) as nat
    } else {
        0
    }
}

pub open spec fn all_digits(s: Seq<char>) -> bool {
    forall|i: int| 0 <= i < s.len() ==> is_digit_char(s[i])
}

/// The value of a digit string read in base 10.
pub open spec fn digits_value(s: Seq<char>) -> nat
    decreases s.len(),
{
    if s.len() == 0 {
        0
    } else {
        digits_value(s.drop_last()) * 10 + digit_val(s.last())
    }
}

/// A prefix of a digit string never exceeds the whole string's value.
proof fn lemma_digits_value_take_le(s: Seq<char>, k: int)
    requires
        0 <= k <= s.len(),
    ensures
        digits_value(s.take(k)) <= digits_value(s),
    decreases s.len() - k,
{
    if k == s.len() {
        assert(s.take(k) =~= s);
    } else {
        lemma_digits_value_take_le(s.drop_last(), k);
        assert(s.drop_last().take(k) =~= s.take(k));
        assert(digits_value(s.drop_last()) * 10 >= digits_value(s.drop_last()));
    }
}

/// What `str::parse::<u32>` followed by `unwrap_or(0)` yields: an optional
/// leading '+', then one or more decimal digits whose value fits in a `u32`;
/// any other shape, and overflow, give 0.
pub open spec fn spec_parse_u32(s: Seq<char>) -> u32 {
    let ds = if s.len() > 0 && s[0] == '+' {
        s.drop_first()
    } else {
        s
    };
    if ds.len() > 0 && all_digits(ds) && digits_value(ds) <= u32::MAX {
        digits_value(ds) as u32
    } else {
        0
    }
}

/// Reads a non-negative decimal integer, defaulting to 0 on any failure,
/// exactly as the locator fields of a record are read.
pub fn parse_u32(s: &str) -> (r: u32)
    ensures
        r == spec_parse_u32(s@),
{
    let len = s.unicode_len();
    if len == 0 {
        return 0;
    }
    let start: usize = if s.get_char(0) == '+' {
        1
    } else {
        0
    };
    let ghost ds = if s@[0] == '+' {
        s@.drop_first()
    } else {
        s@
    };
    assert(ds.len() == len - start);
    assert(forall|j: int| 0 <= j < ds.len() ==> ds[j] == s@[j + start]);
    if len == start {
        return 0;
    }
    let mut i: usize = start;
    let mut acc: u64 = 0;
    while i < len
        invariant
            start <= i <= len,
            len == s@.len(),
            start <= 1,
            len > 0,
            ds == if s@[0] == '+' {
                s@.drop_first()
            } else {
                s@
            },
            start == if s@[0] == '+' {
                1int
            } else {
                0int
            },
            ds.len() == len - start,
            forall|j: int| 0 <= j < ds.len() ==> ds[j] == s@[j + start],
            forall|j: int| 0 <= j < i - start ==> is_digit_char(ds[j]),
            acc == digits_value(ds.take(i - start)),
            acc <= u32::MAX,
        decreases len - i,
    {
        let c = s.get_char(i);
        let u = c as u32;
        if u < 48 || u > 57 {
            assert(!is_digit_char(ds[i - start]));
            assert(!all_digits(ds));
            return 0;
        }
        let d: u64 = (u - 48) as u64;
        let next: u64 = acc * 10 + d;
        proof {
            let m = i - start;
            assert(ds.take(m + 1).drop_last() =~= ds.take(m));
            assert(ds.take(m + 1).last() == ds[m]);
            assert(digits_value(ds.take(m + 1)) == digits_value(ds.take(m)) * 10 + digit_val(
                ds[m],
            ));
        }
        if next > 0xffff_ffff {
            proof {
                if all_digits(ds) && digits_value(ds) <= u32::MAX {
                    lemma_digits_value_take_le(ds, i - start + 1);
                }
            }
            return 0;
        }
        acc = next;
        i += 1;
    }
    proof {
        assert(ds.take(len - start) =~= ds);
    }
    acc as u32
}

/// The needle occurs contiguously somewhere in the haystack.  An empty
/// needle occurs in everything.
pub open spec fn is_substring(hay: Seq<char>, needle: Seq<char>) -> bool {
    exists|i: int|
        0 <= i && i + needle.len() <= hay.len() && #[trigger] hay.subrange(i, i + needle.len())
            == needle
}

/// Whether `needle` occurs in `hay` starting exactly at `at`.
fn match_at(hay: &str, needle: &str, at: usize, hlen: usize, nlen: usize) -> (r: bool)
    requires
        hlen == hay@.len(),
        nlen == needle@.len(),
        at + nlen <= hlen,
    ensures
        r == (hay@.subrange(at as int, at + nlen) == needle@),
{
    let mut j: usize = 0;
    while j < nlen
        invariant
            j <= nlen,
            hlen == hay@.len(),
            nlen == needle@.len(),
            at + nlen <= hlen,
            forall|k: int| 0 <= k < j ==> hay@[at + k] == needle@[k],
        decreases nlen - j,
    {
        if s_get(hay, at + j) != s_get(needle, j) {
            proof {
                assert(hay@.subrange(at as int, at + nlen)[j as int] == hay@[at + j]);
            }
            return false;
        }
        j += 1;
    }
    proof {
        assert(hay@.subrange(at as int, at + nlen) =~= needle@);
    }
    true
}

/// One character of `s`, by position.
fn s_get(s: &str, i: usize) -> (c: char)
    requires
        i < s@.len(),
    ensures
        c == s@[i as int],
{
    s.get_char(i)
}

/// Literal substring containment, the predicate the search applies to each
/// verse after folding.
pub fn contains_substr(hay: &str, needle: &str) -> (r: bool)
    ensures
        r == is_substring(hay@, needle@),
{
    let hlen = hay.unicode_len();
    let nlen = needle.unicode_len();
    if nlen > hlen {
        return false;
    }
    let last_start = hlen - nlen;
    let mut i: usize = 0;
    loop
        invariant
            nlen == needle@.len(),
            hlen == hay@.len(),
            nlen <= hlen,
            last_start == hlen - nlen,
            i <= last_start,
            forall|k: int| 0 <= k < i ==> #[trigger] hay@.subrange(k, k + nlen) != needle@,
        decreases last_start - i,
    {
        if match_at(hay, needle, i, hlen, nlen) {
            return true;
        }
        if i == last_start {
            assert(forall|k: int|
                0 <= k && k + needle@.len() <= hay@.len() ==> #[trigger] hay@.subrange(
                    k,
                    k + nlen,
                ) != needle@);
            return false;
        }
        i += 1;
    }
}

/// Character-for-character string equality.
pub fn str_eq(a: &str, b: &str) -> (r: bool)
    ensures
        r == (a@ == b@),
{
    let alen = a.unicode_len();
    let blen = b.unicode_len();
    if alen != blen {
        return false;
    }
    let mut i: usize = 0;
    while i < alen
        invariant
            i <= alen,
            alen == a@.len(),
            alen == b@.len(),
            forall|j: int| 0 <= j < i ==> a@[j] == b@[j],
        decreases alen - i,
    {
        if s_get(a, i) != s_get(b, i) {
            return false;
        }
        i += 1;
    }
    proof {
        assert(a@ =~= b@);
    }
    true
}

/// The character of one decimal digit.
pub open spec fn digit_char(d: int) -> char {
    if d == 0 {
        '0'
    } else if d == 1 {
        '1'
    } else if d == 2 {
        '2'
    } else if d == 3 {
        '3'
    } else if d == 4 {
        '4'
    } else if d == 5 {
        '5'
    } else if d == 6 {
        '6'
    } else if d == 7 {
        '7'
    } else if d == 8 {
        '8'
    } else {
        '9'
    }
}

/// The decimal writing of a non-negative number, most significant digit
/// first.
pub open spec fn dec_str(n: int) -> Seq<char>
    recommends
        n >= 0,
    decreases n,
{
    if n < 10 {
        seq![digit_char(n)]
    } else {
        dec_str(n / 10).push(digit_char(n % 10))
    }
}

/// One digit as a string.
fn digit_str(d: u32) -> (s: &'static str)
    requires
        d < 10,
    ensures
        s@ == seq![digit_char(d as int)],
{
    proof {
        reveal_strlit("0");
        reveal_strlit("1");
        reveal_strlit("2");
        reveal_strlit("3");
        reveal_strlit("4");
        reveal_strlit("5");
        reveal_strlit("6");
        reveal_strlit("7");
        reveal_strlit("8");
        reveal_strlit("9");
    }
    let s = if d == 0 {
        "0"
    } else if d == 1 {
        "1"
    } else if d == 2 {
        "2"
    } else if d == 3 {
        "3"
    } else if d == 4 {
        "4"
    } else if d == 5 {
        "5"
    } else if d == 6 {
        "6"
    } else if d == 7 {
        "7"
    } else if d == 8 {
        "8"
    } else {
        "9"
    };
    proof {
        assert(s@ =~= seq![digit_char(d as int)]);
    }
    s
}

/// Writes a number in decimal, as a verse number is shown.
pub fn u32_to_string(n: u32) -> (s: String)
    ensures
        s@ == dec_str(n as int),
    decreases n,
{
    if n < 10 {
        digit_str(n).to_owned()
    } else {
        let mut s = u32_to_string(n / 10);
        s.append(digit_str(n % 10));
        proof {
            assert(s@ =~= dec_str((n / 10) as int).push(digit_char((n % 10) as int)));
        }
        s
    }
}

/// The lowercase folding of a character sequence, as `str::to_lowercase`
/// computes it.
pub uninterp spec fn lower_of(s: Seq<char>) -> Seq<char>;

/// Relies on `str::to_lowercase`: the result is a function of the characters
/// alone, and an empty string lowers to an empty string.
#[verifier::external_body]
pub(crate) fn lowercase(s: &str) -> (r: String)
    ensures
        r@ == lower_of(s@),
        s@.len() == 0 ==> r@.len() == 0,
{
    s.to_lowercase()
}

} // verus!
