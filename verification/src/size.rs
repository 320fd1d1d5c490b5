//! Byte sizes written as plain decimal numbers or with a `K`, `KB` or `KiB` suffix.
use vstd::prelude::*;

use crate::fmt::{push_str, push_debug_quoted, spec_debug_quote, string_from_chars};
use crate::text::{
    all_digits, char_digit, digits_value, lemma_digits_value_grows, lemma_digits_value_monotone, spec_parse_unsigned,
    spec_strip_suffix, spec_trim, strip_suffix, trim,
};

verus! {

/// The error text of empty input to the standard library's integer parsing.
pub open spec fn msg_empty_integer() -> Seq<char> {
    "cannot parse integer from empty string"@
}

/// The error text of a character that is not a digit (a lone sign counts as one).
pub open spec fn msg_invalid_digit() -> Seq<char> {
    "invalid digit found in string"@
}

/// The error text of a number beyond the integer type.
pub open spec fn msg_too_large() -> Seq<char> {
    "number too large to fit in target type"@
}

/// The error met scanning the digits of `body` from position `i` with the value `acc` read so
/// far: the first character that is not a decimal digit, or the first digit that takes the value
/// beyond `u32` (empty where the scan meets neither).
pub open spec fn scan_u32_error(body: Seq<char>, i: int, acc: nat) -> Seq<char>
    decreases body.len() - i,
{
    if i < 0 || i >= body.len() {
        Seq::empty()
    } else {
        match char_digit(body[i], 10) {
            None => msg_invalid_digit(),
            Some(d) => if acc * 10 + d > u32::MAX {
                msg_too_large()
            } else {
                scan_u32_error(body, i + 1, acc * 10 + d)
            },
        }
    }
}

/// The text of the error that the standard library's `u32` parsing reports for `s`: empty
/// input; a lone `+`; else, after an optional leading `+`, the first non-digit or the first digit
/// that overflows, scanning from the left.
pub open spec fn parse_u32_error_text(s: Seq<char>) -> Seq<char> {
    let body = if s.len() > 0 && s[0] == '+' { s.drop_first() } else { s };
    if s.len() == 0 {
        msg_empty_integer()
    } else if body.len() == 0 {
        msg_invalid_digit()
    } else {
        scan_u32_error(body, 0, 0)
    }
}

/// Parses a decimal `u32` as `str::parse` does; an error comes back as its text.
fn parse_u32(s: &str) -> (r: Result<u32, String>)
    ensures
        match spec_parse_unsigned(s@, 10, u32::MAX as nat) {
            Some(v) => r == Ok::<u32, String>(v as u32),
            None => r matches Err(e) && e@ == parse_u32_error_text(s@),
        },
{
    let n = s.unicode_len();
    if n == 0 {
        return Err(String::from_str("cannot parse integer from empty string"));
    }
    let start: usize = if s.get_char(0) == '+' { 1 } else { 0 };
    let ghost body = if s@[0] == '+' { s@.drop_first() } else { s@ };
    assert(body =~= s@.skip(start as int));
    if start == n {
        return Err(String::from_str("invalid digit found in string"));
    }
    let mut value: u64 = 0;
    let mut i: usize = start;
    assert(body.take(0) =~= Seq::<char>::empty());
    assert(parse_u32_error_text(s@) == scan_u32_error(body, 0, 0));
    assert(body == (if s@.len() > 0 && s@[0] == '+' { s@.drop_first() } else { s@ }));
    while i < n
        invariant
            start <= i <= n,
            n == s@.len(),
            body == s@.skip(start as int),
            body.len() > 0,
            parse_u32_error_text(s@) == scan_u32_error(body, 0, 0),
            body == (if s@.len() > 0 && s@[0] == '+' { s@.drop_first() } else { s@ }),
            value <= u32::MAX,
            value == digits_value(body.take(i - start), 10),
            all_digits(body.take(i - start), 10),
            scan_u32_error(body, 0, 0) == scan_u32_error(body, i - start, value as nat),
        decreases n - i,
    {
        let c = s.get_char(i);
        let ghost k: int = i - start;
        assert(body[k] == c);
        if !('0' <= c && c <= '9') {
            assert(char_digit(c, 10) is None);
            assert(!all_digits(body, 10)) by {
                assert(char_digit(body[k], 10) is None);
            }
            assert(scan_u32_error(body, k, value as nat) == msg_invalid_digit());
            assert(parse_u32_error_text(s@) == msg_invalid_digit());
            return Err(String::from_str("invalid digit found in string"));
        }
        let d: u64 = (c as u32 - 48) as u64;
        assert(char_digit(c, 10) == Some(d as nat));
        proof {
            lemma_digits_value_grows(body, 10, k);
            assert(body.take(k + 1).drop_last() =~= body.take(k));
        }
        let next: u64 = value * 10 + d;
        if next > 0xffff_ffff {
            proof {
                lemma_digits_value_monotone(body, 10, k + 1, body.len() as int);
                assert(body.take(body.len() as int) =~= body);
                assert(scan_u32_error(body, k, value as nat) == msg_too_large());
                assert(parse_u32_error_text(s@) == msg_too_large());
            }
            return Err(String::from_str("number too large to fit in target type"));
        }
        value = next;
        i += 1;
        proof {
            assert(body.take(i - start) =~= body.take(k).push(c));
            assert forall|j: int| 0 <= j < body.take(i - start).len() implies #[trigger] char_digit(body.take(i - start)[j], 10) is Some by {
                if j < k {
                    assert(body.take(i - start)[j] == body.take(k)[j]);
                }
            }
        }
    }
    assert(body.take(n - start) =~= body);
    Ok(value as u32)
}

/// The number part of a size and its multiplier: `KiB`, `KB` and `K` (tried in this order)
/// multiply by 1024.
pub open spec fn size_parts(s: Seq<char>) -> (Seq<char>, nat) {
    match spec_strip_suffix(s, "KiB"@) {
        Some(n) => (n, 1024),
        None => match spec_strip_suffix(s, "KB"@) {
            Some(n) => (n, 1024),
            None => match spec_strip_suffix(s, "K"@) {
                Some(n) => (n, 1024),
                None => (s, 1),
            },
        },
    }
}

/// The error text of a size that does not parse: the trimmed size and the parse error.
pub open spec fn msg_bad_size(size: Seq<char>, number: Seq<char>) -> Seq<char> {
    "bad size "@ + spec_debug_quote(size) + ": "@ + parse_u32_error_text(number)
}

/// What a size text means: surrounding whitespace is ignored, a suffix selects the multiplier,
/// and the number part (trimmed again) must parse as a `u32`.
pub open spec fn spec_parse_size(s: Seq<char>) -> Result<nat, Seq<char>> {
    let t = spec_trim(s);
    let p = size_parts(t);
    let number = spec_trim(p.0);
    match spec_parse_unsigned(number, 10, u32::MAX as nat) {
        Some(v) => Ok(v * p.1),
        None => Err(msg_bad_size(t, number)),
    }
}

/// A size text whose value, if it parses, fits in a `u32`.
pub open spec fn size_fits(s: Seq<char>) -> bool {
    spec_parse_size(s) matches Ok(v) ==> v <= u32::MAX
}

/// The number part and multiplier of a trimmed size text.
fn split_size(t: &str) -> (r: (&str, u32))
    ensures
        r.0@ == size_parts(t@).0,
        r.1 as nat == size_parts(t@).1,
{
    match strip_suffix(t, "KiB") {
        Some(n) => (n, 1024),
        None => match strip_suffix(t, "KB") {
            Some(n) => (n, 1024),
            None => match strip_suffix(t, "K") {
                Some(n) => (n, 1024),
                None => (t, 1),
            },
        },
    }
}

/// The number and the multiplier of a size text, or the error text.
fn parse_size_parts(s: &str) -> (r: Result<(u32, u32), String>)
    ensures
        ({
            let p = size_parts(spec_trim(s@));
            match spec_parse_unsigned(spec_trim(p.0), 10, u32::MAX as nat) {
                Some(v) => r matches Ok(q) && q.0 as nat == v && q.1 as nat == p.1,
                None => r matches Err(e) && e@ == msg_bad_size(spec_trim(s@), spec_trim(p.0)),
            }
        }),
{
    let t = trim(s);
    let (number, mul) = split_size(t);
    let number = trim(number);
    match parse_u32(number) {
        Ok(v) => Ok((v, mul)),
        Err(e) => {
            let mut out: Vec<char> = Vec::new();
            push_str(&mut out, "bad size ");
            push_debug_quoted(&mut out, t);
            push_str(&mut out, ": ");
            push_str(&mut out, e.as_str());
            assert(out@ =~= msg_bad_size(t@, number@));
            Err(string_from_chars(&out))
        },
    }
}

/// Whether the value of a size text, if it parses, fits in a `u32` (see [`parse_size_str`]).
pub fn size_fits_exec(s: &str) -> (r: bool)
    ensures
        r == size_fits(s@),
{
    match parse_size_parts(s) {
        Ok((v, mul)) => {
            assert(mul == 1 || mul == 1024);
            mul == 1 || v <= 4194303
        },
        Err(_) => true,
    }
}

/// Parses a byte size: a decimal number, optionally followed by `K`, `KB` or `KiB` (each
/// meaning 1024 bytes), with whitespace allowed around the whole and before the suffix.
pub fn parse_size_str(s: &str) -> (r: Result<u32, String>)
    requires
        size_fits(s@),
    ensures
        match spec_parse_size(s@) {
            Ok(v) => r == Ok::<u32, String>(v as u32),
            Err(e) => r matches Err(t) && t@ == e,
        },
{
    match parse_size_parts(s) {
        Ok((v, mul)) => {
            assert(mul == 1 || mul == 1024);
            Ok(v * mul)
        },
        Err(e) => Err(e),
    }
}

} // verus!
