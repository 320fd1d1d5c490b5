//! Character-level helpers shared by the parsers and renderers of this crate.
use vstd::prelude::*;

use crate::fmt::{digit_char, spec_decimal, string_from_chars};
use crate::search::{
    find_first, find_last, lemma_find_first_is, lemma_find_first_none, lemma_find_last_is,
};

verus! {

/// ASCII lower-casing of one character; every other character is unchanged.
pub open spec fn ascii_lower(c: char) -> char {
    if 'A' <= c && c <= 'Z' {
        ((c as u32) + 32) as char
    } else {
        c
    }
}

/// Two character sequences are equal once ASCII letters are lower-cased.
pub open spec fn eq_ignore_ascii_case(a: Seq<char>, b: Seq<char>) -> bool {
    &&& a.len() == b.len()
    &&& forall|i: int| 0 <= i < a.len() ==> ascii_lower(#[trigger] a[i]) == ascii_lower(b[i])
}

pub fn char_to_ascii_lower(c: char) -> (r: char)
    ensures
        r == ascii_lower(c),
{
    if 'A' <= c && c <= 'Z' {
        ((c as u8) + 32) as char
    } else {
        c
    }
}

/// ASCII upper-casing of one character; every other character is unchanged.
pub open spec fn ascii_upper(c: char) -> char {
    if 'a' <= c && c <= 'z' {
        ((c as u32) - 32) as char
    } else {
        c
    }
}

pub fn char_to_ascii_upper(c: char) -> (r: char)
    ensures
        r == ascii_upper(c),
{
    if 'a' <= c && c <= 'z' {
        ((c as u8) - 32) as char
    } else {
        c
    }
}

/// `s` with its ASCII letters lower-cased.
pub open spec fn ascii_lowercase(s: Seq<char>) -> Seq<char> {
    Seq::new(s.len(), |i: int| ascii_lower(s[i]))
}

/// `s` with its ASCII letters upper-cased.
pub open spec fn ascii_uppercase(s: Seq<char>) -> Seq<char> {
    Seq::new(s.len(), |i: int| ascii_upper(s[i]))
}

/// The lower-cased text of `s`.
pub fn to_ascii_lowercase(s: &str) -> (r: String)
    ensures
        r@ == ascii_lowercase(s@),
{
    let n = s.unicode_len();
    let mut out: Vec<char> = Vec::new();
    let mut i: usize = 0;
    while i < n
        invariant
            n == s@.len(),
            i <= n,
            out@ == ascii_lowercase(s@).take(i as int),
        decreases n - i,
    {
        out.push(char_to_ascii_lower(s.get_char(i)));
        i += 1;
        assert(out@ =~= ascii_lowercase(s@).take(i as int));
    }
    assert(out@ =~= ascii_lowercase(s@));
    string_from_chars(&out)
}

/// The upper-cased text of `s`.
pub fn to_ascii_uppercase(s: &str) -> (r: String)
    ensures
        r@ == ascii_uppercase(s@),
{
    let n = s.unicode_len();
    let mut out: Vec<char> = Vec::new();
    let mut i: usize = 0;
    while i < n
        invariant
            n == s@.len(),
            i <= n,
            out@ == ascii_uppercase(s@).take(i as int),
        decreases n - i,
    {
        out.push(char_to_ascii_upper(s.get_char(i)));
        i += 1;
        assert(out@ =~= ascii_uppercase(s@).take(i as int));
    }
    assert(out@ =~= ascii_uppercase(s@));
    string_from_chars(&out)
}

/// `s` begins with `prefix`.
pub open spec fn spec_starts_with(s: Seq<char>, prefix: Seq<char>) -> bool {
    prefix.len() <= s.len() && s.take(prefix.len() as int) == prefix
}

/// Whether `s` begins with `prefix`.
pub fn starts_with(s: &str, prefix: &str) -> (r: bool)
    ensures
        r == spec_starts_with(s@, prefix@),
{
    let n = s.unicode_len();
    let m = prefix.unicode_len();
    if m > n {
        return false;
    }
    let mut i: usize = 0;
    while i < m
        invariant
            n == s@.len(),
            m == prefix@.len(),
            m <= n,
            i <= m,
            forall|j: int| 0 <= j < i ==> #[trigger] s@[j] == prefix@[j],
        decreases m - i,
    {
        if s.get_char(i) != prefix.get_char(i) {
            assert(s@.take(m as int)[i as int] != prefix@[i as int]);
            return false;
        }
        i += 1;
    }
    assert(s@.take(m as int) =~= prefix@);
    true
}

/// `s` without the leading `prefix`, if it begins with it.
pub open spec fn spec_strip_prefix(s: Seq<char>, prefix: Seq<char>) -> Option<Seq<char>> {
    if spec_starts_with(s, prefix) {
        Some(s.skip(prefix.len() as int))
    } else {
        None
    }
}

/// `s` without the leading `prefix`, if it begins with it.
pub fn strip_prefix<'a>(s: &'a str, prefix: &str) -> (r: Option<&'a str>)
    ensures
        match spec_strip_prefix(s@, prefix@) {
            Some(t) => r matches Some(x) && x@ == t,
            None => r is None,
        },
{
    if starts_with(s, prefix) {
        let t = s.substring_char(prefix.unicode_len(), s.unicode_len());
        assert(t@ =~= s@.skip(prefix@.len() as int));
        Some(t)
    } else {
        None
    }
}

/// `s` without the suffix `suf`, if it ends with it.
pub open spec fn spec_strip_suffix(s: Seq<char>, suf: Seq<char>) -> Option<Seq<char>> {
    if suf.len() <= s.len() && s.subrange(s.len() - suf.len(), s.len() as int) == suf {
        Some(s.subrange(0, s.len() - suf.len()))
    } else {
        None
    }
}

/// `s` without the trailing `suf`, if it ends with it.
pub fn strip_suffix<'a>(s: &'a str, suf: &str) -> (r: Option<&'a str>)
    ensures
        match spec_strip_suffix(s@, suf@) {
            Some(n) => r matches Some(t) && t@ == n,
            None => r is None,
        },
{
    let n = s.unicode_len();
    let m = suf.unicode_len();
    if m > n {
        return None;
    }
    let mut i: usize = 0;
    while i < m
        invariant
            n == s@.len(),
            m == suf@.len(),
            m <= n,
            i <= m,
            forall|j: int| 0 <= j < i ==> #[trigger] suf@[j] == s@[n - m + j],
        decreases m - i,
    {
        if s.get_char(n - m + i) != suf.get_char(i) {
            assert(s@.subrange(n - m, n as int)[i as int] != suf@[i as int]);
            return None;
        }
        i += 1;
    }
    assert(s@.subrange(n - m, n as int) =~= suf@);
    Some(s.substring_char(0, n - m))
}

/// Compares two strings ignoring ASCII case.
pub fn str_eq_ignore_ascii_case(a: &str, b: &str) -> (r: bool)
    ensures
        r == eq_ignore_ascii_case(a@, b@),
{
    let n = a.unicode_len();
    if n != b.unicode_len() {
        return false;
    }
    let mut i: usize = 0;
    while i < n
        invariant
            n == a@.len(),
            n == b@.len(),
            i <= n,
            forall|j: int| 0 <= j < i ==> ascii_lower(#[trigger] a@[j]) == ascii_lower(b@[j]),
        decreases n - i,
    {
        if char_to_ascii_lower(a.get_char(i)) != char_to_ascii_lower(b.get_char(i)) {
            return false;
        }
        i += 1;
    }
    true
}

} // verus!

verus! {

/// Predicate: the character equals `c`.
pub open spec fn char_is(c: char) -> spec_fn(char) -> bool {
    |x: char| x == c
}

/// `s` split around the first occurrence of `c`, if `c` occurs.
pub open spec fn spec_split_once(s: Seq<char>, c: char) -> Option<(Seq<char>, Seq<char>)> {
    match find_first(s, char_is(c)) {
        Some(i) => Some((s.take(i), s.skip(i + 1))),
        None => None,
    }
}

/// Position of the first occurrence of `c` in `s`.
pub fn find_char(s: &str, c: char) -> (r: Option<usize>)
    ensures
        match find_first(s@, char_is(c)) {
            Some(i) => r == Some(i as usize),
            None => r is None,
        },
{
    let n = s.unicode_len();
    let mut i: usize = 0;
    while i < n
        invariant
            n == s@.len(),
            i <= n,
            forall|j: int| 0 <= j < i ==> !char_is(c)(#[trigger] s@[j]),
        decreases n - i,
    {
        if s.get_char(i) == c {
            proof {
                lemma_find_first_is(s@, char_is(c), i as int);
            }
            return Some(i);
        }
        i += 1;
    }
    proof {
        lemma_find_first_none(s@, char_is(c));
    }
    None
}

/// Splits `s` around the first occurrence of `c`.
pub fn split_once_char<'a>(s: &'a str, c: char) -> (r: Option<(&'a str, &'a str)>)
    ensures
        match spec_split_once(s@, c) {
            Some((a, b)) => r matches Some((x, y)) && x@ == a && y@ == b,
            None => r is None,
        },
{
    match find_char(s, c) {
        Some(i) => {
            let n = s.unicode_len();
            let a = s.substring_char(0, i);
            let b = s.substring_char(i + 1, n);
            assert(a@ =~= s@.take(i as int));
            assert(b@ =~= s@.skip(i + 1));
            Some((a, b))
        },
        None => None,
    }
}

} // verus!

verus! {

/// The value of `c` as a digit in base `radix`, as `char::to_digit` reads it.
pub open spec fn char_digit(c: char, radix: nat) -> Option<nat> {
    let v: int = if '0' <= c && c <= '9' {
        c as int - 48
    } else if 'a' <= c && c <= 'z' {
        c as int - 87
    } else if 'A' <= c && c <= 'Z' {
        c as int - 55
    } else {
        radix as int
    };
    if v < radix {
        Some(v as nat)
    } else {
        None
    }
}

/// Every character of `s` is a digit in base `radix`.
pub open spec fn all_digits(s: Seq<char>, radix: nat) -> bool {
    forall|i: int| 0 <= i < s.len() ==> #[trigger] char_digit(s[i], radix) is Some
}

/// The number written by the digits `s` in base `radix`.
pub open spec fn digits_value(s: Seq<char>, radix: nat) -> nat
    decreases s.len(),
{
    if s.len() == 0 {
        0
    } else {
        digits_value(s.drop_last(), radix) * radix + char_digit(s.last(), radix)->0
    }
}

/// What the standard library's unsigned integer parsing in base `radix` yields for `s` with an
/// integer type whose largest value is `max`: an optional `+`, then at least one digit, and a value
/// of at most `max`.
pub open spec fn spec_parse_unsigned(s: Seq<char>, radix: nat, max: nat) -> Option<nat> {
    let body = if s.len() > 0 && s[0] == '+' {
        s.drop_first()
    } else {
        s
    };
    if body.len() == 0 || !all_digits(body, radix) || digits_value(body, radix) > max {
        None
    } else {
        Some(digits_value(body, radix))
    }
}

fn char_to_digit(c: char, radix: u32) -> (r: Option<u64>)
    requires
        2 <= radix <= 36,
    ensures
        match char_digit(c, radix as nat) {
            Some(v) => r == Some(v as u64),
            None => r is None,
        },
{
    let v: u32 = if '0' <= c && c <= '9' {
        (c as u32) - 48
    } else if 'a' <= c && c <= 'z' {
        (c as u32) - 87
    } else if 'A' <= c && c <= 'Z' {
        (c as u32) - 55
    } else {
        radix
    };
    if v < radix {
        Some(v as u64)
    } else {
        None
    }
}

pub proof fn lemma_digits_value_grows(s: Seq<char>, radix: nat, i: int)
    requires
        0 <= i < s.len(),
        radix >= 2,
    ensures
        digits_value(s.take(i + 1), radix) >= digits_value(s.take(i), radix),
        digits_value(s.take(i + 1), radix) == digits_value(s.take(i), radix) * radix + char_digit(
            s[i],
            radix,
        )->0,
{
    assert(s.take(i + 1).drop_last() =~= s.take(i));
    let v = digits_value(s.take(i), radix);
    assert(v * radix >= v) by (nonlinear_arith)
        requires
            radix >= 2,
    ;
}

pub proof fn lemma_digits_value_monotone(s: Seq<char>, radix: nat, i: int, j: int)
    requires
        0 <= i <= j <= s.len(),
        radix >= 2,
    ensures
        digits_value(s.take(j), radix) >= digits_value(s.take(i), radix),
    decreases j - i,
{
    if i < j {
        lemma_digits_value_monotone(s, radix, i, j - 1);
        lemma_digits_value_grows(s, radix, j - 1);
    }
}

/// Parses `s` as the standard library parses an unsigned integer in base `radix` whose largest
/// value is `max`.
pub fn parse_unsigned(s: &str, radix: u32, max: u64) -> (r: Option<u64>)
    requires
        2 <= radix <= 36,
    ensures
        match spec_parse_unsigned(s@, radix as nat, max as nat) {
            Some(v) => r == Some(v as u64),
            None => r is None,
        },
{
    let n = s.unicode_len();
    let mut start: usize = 0;
    if n > 0 && s.get_char(0) == '+' {
        start = 1;
    }
    let ghost body = if s@.len() > 0 && s@[0] == '+' {
        s@.drop_first()
    } else {
        s@
    };
    assert(body =~= s@.skip(start as int));
    if start == n {
        return None;
    }
    let mut value: u64 = 0;
    let mut i: usize = start;
    assert(body.take(0) =~= Seq::<char>::empty());
    while i < n
        invariant
            start <= i <= n,
            n == s@.len(),
            2 <= radix <= 36,
            body == s@.skip(start as int),
            body == (if s@.len() > 0 && s@[0] == '+' {
                s@.drop_first()
            } else {
                s@
            }),
            value <= max,
            value == digits_value(body.take(i - start), radix as nat),
            all_digits(body.take(i - start), radix as nat),
        decreases n - i,
    {
        let c = s.get_char(i);
        assert(body[i - start] == c);
        let d = match char_to_digit(c, radix) {
            Some(d) => d,
            None => {
                assert(!all_digits(body, radix as nat)) by {
                    assert(char_digit(body[i - start], radix as nat) is None);
                }
                return None;
            },
        };
        proof {
            assert(value * (radix as u128) <= u64::MAX * 36) by (nonlinear_arith)
                requires
                    value <= u64::MAX,
                    radix <= 36,
            ;
        }
        let next: u128 = (value as u128) * (radix as u128) + (d as u128);
        i += 1;
        proof {
            let pre = body.take(i - 1 - start);
            let cur = body.take(i - start);
            assert(cur =~= pre.push(c));
            assert(cur.drop_last() =~= pre);
            assert(digits_value(cur, radix as nat) == digits_value(pre, radix as nat) * radix + char_digit(c, radix as nat)->0);
            assert(next == digits_value(cur, radix as nat));
        }
        if next > max as u128 {
            proof {
                lemma_digits_value_monotone(body, radix as nat, i - start, body.len() as int);
                assert(body.take(body.len() as int) =~= body);
            }
            return None;
        }
        value = next as u64;
    }
    assert(body.take(n - start) =~= body);
    Some(value)
}

} // verus!

verus! {

/// Unicode `White_Space` characters, as `char::is_whitespace` classifies them.
pub open spec fn is_whitespace(c: char) -> bool {
    let u = c as u32;
    (0x09 <= u && u <= 0x0d) || u == 0x20 || u == 0x85 || u == 0xa0 || u == 0x1680 || (0x2000 <= u
        && u <= 0x200a) || u == 0x2028 || u == 0x2029 || u == 0x202f || u == 0x205f || u == 0x3000
}

pub fn char_is_whitespace(c: char) -> (r: bool)
    ensures
        r == is_whitespace(c),
{
    let u = c as u32;
    (0x09 <= u && u <= 0x0d) || u == 0x20 || u == 0x85 || u == 0xa0 || u == 0x1680 || (0x2000 <= u
        && u <= 0x200a) || u == 0x2028 || u == 0x2029 || u == 0x202f || u == 0x205f || u == 0x3000
}

pub open spec fn whitespace() -> spec_fn(char) -> bool {
    |c: char| is_whitespace(c)
}

pub open spec fn not_whitespace() -> spec_fn(char) -> bool {
    |c: char| !is_whitespace(c)
}

/// `s` without leading and trailing whitespace.
pub open spec fn spec_trim(s: Seq<char>) -> Seq<char> {
    match find_first(s, not_whitespace()) {
        None => Seq::empty(),
        Some(a) => s.subrange(a, find_last(s, not_whitespace())->0 + 1),
    }
}

/// Length of the leading run of non-whitespace characters of `s`.
pub open spec fn word_len(s: Seq<char>) -> int {
    match find_first(s, whitespace()) {
        Some(i) => i,
        None => s.len() as int,
    }
}

/// The whitespace-separated words of `s`, as `str::split_whitespace` yields them.
pub open spec fn spec_words(s: Seq<char>) -> Seq<Seq<char>>
    decreases s.len(),
{
    if s.len() == 0 {
        Seq::empty()
    } else if is_whitespace(s[0]) {
        spec_words(s.drop_first())
    } else {
        let t = word_len(s);
        if 0 < t <= s.len() {
            seq![s.take(t)] + spec_words(s.skip(t))
        } else {
            Seq::empty()
        }
    }
}

/// The lines of `s`, as `str::lines` yields them: split after each `\n`, which is dropped together
/// with a `\r` just before it; no line follows a final `\n`.
pub open spec fn spec_lines(s: Seq<char>) -> Seq<Seq<char>>
    decreases s.len(),
{
    if s.len() == 0 {
        Seq::empty()
    } else {
        match find_first(s, char_is('\n')) {
            Some(i) => {
                let l = s.take(i);
                let l = if l.len() > 0 && l.last() == '\r' {
                    l.drop_last()
                } else {
                    l
                };
                if 0 <= i < s.len() {
                    seq![l] + spec_lines(s.skip(i + 1))
                } else {
                    Seq::empty()
                }
            },
            None => seq![s],
        }
    }
}

/// Removes leading and trailing whitespace.
pub fn trim(s: &str) -> (r: &str)
    ensures
        r@ == spec_trim(s@),
{
    let n = s.unicode_len();
    let mut a: usize = 0;
    while a < n && char_is_whitespace(s.get_char(a))
        invariant
            n == s@.len(),
            a <= n,
            forall|j: int| 0 <= j < a ==> !not_whitespace()(#[trigger] s@[j]),
        decreases n - a,
    {
        a += 1;
    }
    if a == n {
        proof {
            lemma_find_first_none(s@, not_whitespace());
        }
        return s.substring_char(0, 0);
    }
    proof {
        lemma_find_first_is(s@, not_whitespace(), a as int);
    }
    let mut b: usize = n;
    while b > a && char_is_whitespace(s.get_char(b - 1))
        invariant
            n == s@.len(),
            a < n,
            !is_whitespace(s@[a as int]),
            a <= b <= n,
            forall|j: int| b <= j < n ==> !not_whitespace()(#[trigger] s@[j]),
        decreases b,
    {
        b -= 1;
    }
    proof {
        lemma_find_last_is(s@, not_whitespace(), b - 1);
    }
    s.substring_char(a, b)
}

/// Length of the leading run of non-whitespace characters of `s` from position `i` on.
fn word_end(s: &str, n: usize, i: usize) -> (r: usize)
    requires
        n == s@.len(),
        i <= n,
    ensures
        i <= r <= n,
        r - i == word_len(s@.skip(i as int)),
{
    let mut j: usize = i;
    while j < n && !char_is_whitespace(s.get_char(j))
        invariant
            n == s@.len(),
            i <= j <= n,
            forall|k: int| i <= k < j ==> !is_whitespace(#[trigger] s@[k]),
        decreases n - j,
    {
        j += 1;
    }
    let ghost t = s@.skip(i as int);
    assert forall|k: int| 0 <= k < j - i implies !whitespace()(#[trigger] t[k]) by {
        assert(t[k] == s@[i + k]);
    }
    if j < n {
        proof {
            assert(t[j - i] == s@[j as int]);
            lemma_find_first_is(t, whitespace(), (j - i) as int);
        }
    } else {
        proof {
            lemma_find_first_none(t, whitespace());
        }
    }
    j
}

/// The whitespace-separated words of `s`.
pub fn split_whitespace(s: &str) -> (r: Vec<&str>)
    ensures
        r@.map_values(|w: &str| w@) == spec_words(s@),
{
    let n = s.unicode_len();
    let mut out: Vec<&str> = Vec::new();
    let mut i: usize = 0;
    assert(s@.skip(0) =~= s@);
    while i < n
        invariant
            n == s@.len(),
            i <= n,
            spec_words(s@) == out@.map_values(|w: &str| w@) + spec_words(s@.skip(i as int)),
        decreases n - i,
    {
        let ghost rest = s@.skip(i as int);
        if char_is_whitespace(s.get_char(i)) {
            assert(rest.drop_first() =~= s@.skip(i + 1));
            i += 1;
        } else {
            let j = word_end(s, n, i);
            let w = s.substring_char(i, j);
            assert(w@ =~= rest.take(j - i));
            assert(rest.skip(j - i) =~= s@.skip(j as int));
            let ghost before = out@;
            out.push(w);
            assert(out@.map_values(|w: &str| w@) =~= before.map_values(|w: &str| w@).push(w@));
            assert(spec_words(rest) == seq![w@] + spec_words(s@.skip(j as int)));
            assert(spec_words(s@) =~= out@.map_values(|w: &str| w@) + spec_words(s@.skip(j as int)));
            i = j;
        }
    }
    assert(s@.skip(n as int) =~= Seq::<char>::empty());
    assert(out@.map_values(|w: &str| w@) + Seq::<Seq<char>>::empty() =~= out@.map_values(|w: &str| w@));
    out
}

/// The lines of `s`.
pub fn lines(s: &str) -> (r: Vec<&str>)
    ensures
        r@.map_values(|l: &str| l@) == spec_lines(s@),
{
    let n = s.unicode_len();
    let mut out: Vec<&str> = Vec::new();
    let mut i: usize = 0;
    assert(s@.skip(0) =~= s@);
    while i < n
        invariant
            n == s@.len(),
            i <= n,
            spec_lines(s@) == out@.map_values(|l: &str| l@) + spec_lines(s@.skip(i as int)),
        decreases n - i,
    {
        let ghost rest = s@.skip(i as int);
        let mut j: usize = i;
        while j < n && s.get_char(j) != '\n'
            invariant
                n == s@.len(),
                i <= j <= n,
                forall|k: int| i <= k < j ==> s@[k] != '\n',
            decreases n - j,
        {
            j += 1;
        }
        assert forall|k: int| 0 <= k < j - i implies !char_is('\n')(#[trigger] rest[k]) by {
            assert(rest[k] == s@[i + k]);
        }
        let ghost before = out@;
        if j < n {
            proof {
                assert(rest[j - i] == s@[j as int]);
                lemma_find_first_is(rest, char_is('\n'), (j - i) as int);
            }
            let mut end = j;
            if j > i && s.get_char(j - 1) == '\r' {
                end = j - 1;
            }
            let l = s.substring_char(i, end);
            assert(l@ =~= (if rest.take(j - i).len() > 0 && rest.take(j - i).last() == '\r' {
                rest.take(j - i).drop_last()
            } else {
                rest.take(j - i)
            }));
            assert(rest.skip(j - i + 1) =~= s@.skip(j + 1));
            out.push(l);
            i = j + 1;
        } else {
            proof {
                lemma_find_first_none(rest, char_is('\n'));
            }
            let l = s.substring_char(i, n);
            assert(l@ =~= rest);
            assert(s@.skip(n as int) =~= Seq::<char>::empty());
            out.push(l);
            i = n;
        }
        assert(out@.map_values(|l: &str| l@) =~= before.map_values(|l: &str| l@).push(out@.last()@));
        assert(spec_lines(s@) =~= out@.map_values(|l: &str| l@) + spec_lines(s@.skip(i as int)));
    }
    assert(s@.skip(n as int) =~= Seq::<char>::empty());
    assert(out@.map_values(|l: &str| l@) + Seq::<Seq<char>>::empty() =~= out@.map_values(|l: &str| l@));
    out
}


/// A decimal digit character reads back as its digit.
pub proof fn lemma_digit_char_reads_back(d: nat)
    requires
        d < 10,
    ensures
        char_digit(digit_char(d), 10) == Some(d),
{
    let c = digit_char(d);
    assert(c as int == 48 + d);
}

/// The decimal text of `n` is all digits, does not begin with `+`, and reads back as `n`.
pub proof fn lemma_decimal_reads_back(n: nat)
    ensures
        spec_decimal(n).len() > 0,
        all_digits(spec_decimal(n), 10),
        digits_value(spec_decimal(n), 10) == n,
        spec_decimal(n)[0] != '+',
    decreases n,
{
    if n < 10 {
        lemma_digit_char_reads_back(n);
        assert(spec_decimal(n) =~= seq![digit_char(n)]);
        assert(seq![digit_char(n)].drop_last() =~= Seq::<char>::empty());
        assert(digit_char(n) as int == 48 + n);
        assert(digits_value(spec_decimal(n), 10) == digits_value(Seq::<char>::empty(), 10) * 10 + char_digit(
            digit_char(n),
            10,
        )->0);
    } else {
        lemma_decimal_reads_back(n / 10);
        lemma_digit_char_reads_back(n % 10);
        let s = spec_decimal(n / 10);
        assert(spec_decimal(n) == s.push(digit_char(n % 10)));
        assert(spec_decimal(n).drop_last() =~= s);
        assert forall|i: int| 0 <= i < spec_decimal(n).len() implies #[trigger] char_digit(spec_decimal(n)[i], 10) is Some by {
            if i < s.len() {
                assert(spec_decimal(n)[i] == s[i]);
            }
        }
        assert(spec_decimal(n)[0] == s[0]);
        assert(digits_value(spec_decimal(n), 10) == digits_value(s, 10) * 10 + char_digit(digit_char(n % 10), 10)->0);
        assert((n / 10) * 10 + n % 10 == n);
    }
}

/// The decimal text of a number that fits reads back as that number.
pub proof fn lemma_parse_decimal(n: nat, max: nat)
    requires
        n <= max,
    ensures
        spec_parse_unsigned(spec_decimal(n), 10, max) == Some(n),
{
    lemma_decimal_reads_back(n);
}

} // verus!
