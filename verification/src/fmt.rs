//! Building text: characters, padding, and decimal and hexadecimal numbers.
use vstd::prelude::*;

verus! {

/// `n` spaces (none when `n` is not positive).
pub open spec fn spaces(n: int) -> Seq<char> {
    Seq::new(if n > 0 { n as nat } else { 0 }, |i: int| ' ')
}

/// `s` left-aligned in a field of `width` characters.
pub open spec fn pad_right(s: Seq<char>, width: int) -> Seq<char> {
    s + spaces(width - s.len())
}

/// `s` right-aligned in a field of `width` characters.
pub open spec fn pad_left(s: Seq<char>, width: int) -> Seq<char> {
    spaces(width - s.len()) + s
}

/// The decimal digit character of `d < 10`.
pub open spec fn digit_char(d: nat) -> char {
    ((48 + d) as u32) as char
}

/// The decimal representation of `n`, without leading zeros.
pub open spec fn spec_decimal(n: nat) -> Seq<char>
    decreases n,
{
    if n < 10 {
        seq![digit_char(n)]
    } else {
        spec_decimal(n / 10).push(digit_char(n % 10))
    }
}

/// The upper-case hexadecimal digit character of `d < 16`.
pub open spec fn hex_digit_upper(d: u32) -> char {
    if d < 10 {
        ((48 + d) as u32) as char
    } else {
        ((55 + d) as u32) as char
    }
}

/// The eight upper-case hexadecimal digits of `n`, most significant first.
pub open spec fn spec_hex8_upper(n: u32) -> Seq<char> {
    Seq::new(8, |i: int| hex_digit_upper((n >> ((28 - 4 * i) as u32)) & 0xf))
}

/// The lower-case hexadecimal digit character of `d < 16`.
pub open spec fn hex_digit_lower(d: u32) -> char {
    if d < 10 {
        ((48 + d) as u32) as char
    } else {
        ((87 + d) as u32) as char
    }
}

/// The eight lower-case hexadecimal digits of `n`, most significant first.
pub open spec fn spec_hex8_lower(n: u32) -> Seq<char> {
    Seq::new(8, |i: int| hex_digit_lower((n >> ((28 - 4 * i) as u32)) & 0xf))
}

/// Appends the characters of `s`.
pub fn push_str(out: &mut Vec<char>, s: &str)
    ensures
        final(out)@ == old(out)@ + s@,
{
    let n = s.unicode_len();
    let mut i: usize = 0;
    while i < n
        invariant
            n == s@.len(),
            i <= n,
            out@ == old(out)@ + s@.take(i as int),
        decreases n - i,
    {
        out.push(s.get_char(i));
        i += 1;
        assert(s@.take(i as int) =~= s@.take(i - 1).push(s@[i - 1]));
    }
    assert(s@.take(n as int) =~= s@);
}

/// Appends `n` spaces.
pub fn push_spaces(out: &mut Vec<char>, n: usize)
    ensures
        final(out)@ == old(out)@ + spaces(n as int),
{
    let mut i: usize = 0;
    while i < n
        invariant
            i <= n,
            out@ == old(out)@ + spaces(i as int),
        decreases n - i,
    {
        out.push(' ');
        i += 1;
        assert(spaces(i as int) =~= spaces(i - 1).push(' '));
    }
}

/// Appends `s` left-aligned in a field of `width` characters.
pub fn push_padded_right(out: &mut Vec<char>, s: &str, width: usize)
    ensures
        final(out)@ == old(out)@ + pad_right(s@, width as int),
{
    let n = s.unicode_len();
    push_str(out, s);
    if n < width {
        push_spaces(out, width - n);
    } else {
        assert(spaces(width - n) =~= Seq::<char>::empty());
    }
    assert(old(out)@ + s@ + spaces(width - n) =~= old(out)@ + pad_right(s@, width as int));
}

/// Appends the characters of `s` right-aligned in a field of `width` characters.
pub fn push_chars_padded_left(out: &mut Vec<char>, s: &Vec<char>, width: usize)
    ensures
        final(out)@ == old(out)@ + pad_left(s@, width as int),
{
    let n = s.len();
    if n < width {
        push_spaces(out, width - n);
    } else {
        assert(spaces(width - n) =~= Seq::<char>::empty());
    }
    let ghost mid = out@;
    let mut i: usize = 0;
    while i < n
        invariant
            n == s@.len(),
            i <= n,
            out@ == mid + s@.take(i as int),
        decreases n - i,
    {
        out.push(s[i]);
        i += 1;
        assert(s@.take(i as int) =~= s@.take(i - 1).push(s@[i - 1]));
    }
    assert(s@.take(n as int) =~= s@);
    assert(old(out)@ + spaces(width - n) + s@ =~= old(out)@ + pad_left(s@, width as int));
}

/// Appends the decimal representation of `n`.
pub fn push_decimal(out: &mut Vec<char>, n: u64)
    ensures
        final(out)@ == old(out)@ + spec_decimal(n as nat),
    decreases n,
{
    if n >= 10 {
        push_decimal(out, n / 10);
    }
    let d = (n % 10) as u8;
    out.push((48u8 + d) as char);
    assert(final(out)@ =~= old(out)@ + spec_decimal(n as nat)) by {
        if n >= 10 {
            assert(spec_decimal(n as nat) == spec_decimal((n / 10) as nat).push(digit_char((n % 10) as nat)));
        }
    }
}

/// The decimal representation of `n`.
pub fn decimal_chars(n: u64) -> (r: Vec<char>)
    ensures
        r@ == spec_decimal(n as nat),
{
    let mut out: Vec<char> = Vec::new();
    push_decimal(&mut out, n);
    assert(out@ =~= spec_decimal(n as nat));
    out
}

/// Appends the eight upper-case hexadecimal digits of `n`.
pub fn push_hex8_upper(out: &mut Vec<char>, n: u32)
    ensures
        final(out)@ == old(out)@ + spec_hex8_upper(n),
{
    let mut i: u32 = 0;
    while i < 8
        invariant
            i <= 8,
            out@ == old(out)@ + spec_hex8_upper(n).take(i as int),
        decreases 8 - i,
    {
        let sh: u32 = 28 - 4 * i;
        let d = (n >> sh) & 0xf;
        assert(d < 16) by (bit_vector)
            requires
                d == (n >> sh) & 0xf,
        ;
        let c = if d < 10 {
            (48u8 + d as u8) as char
        } else {
            (55u8 + d as u8) as char
        };
        assert(c == hex_digit_upper(d));
        out.push(c);
        i += 1;
        assert(spec_hex8_upper(n).take(i as int) =~= spec_hex8_upper(n).take(i - 1).push(
            spec_hex8_upper(n)[i - 1],
        ));
    }
    assert(spec_hex8_upper(n).take(8) =~= spec_hex8_upper(n));
}

/// Appends the eight lower-case hexadecimal digits of `n`.
pub fn push_hex8_lower(out: &mut Vec<char>, n: u32)
    ensures
        final(out)@ == old(out)@ + spec_hex8_lower(n),
{
    let mut i: u32 = 0;
    while i < 8
        invariant
            i <= 8,
            out@ == old(out)@ + spec_hex8_lower(n).take(i as int),
        decreases 8 - i,
    {
        let sh: u32 = 28 - 4 * i;
        let d = (n >> sh) & 0xf;
        assert(d < 16) by (bit_vector)
            requires
                d == (n >> sh) & 0xf,
        ;
        let c = if d < 10 {
            (48u8 + d as u8) as char
        } else {
            (87u8 + d as u8) as char
        };
        assert(c == hex_digit_lower(d));
        out.push(c);
        i += 1;
        assert(spec_hex8_lower(n).take(i as int) =~= spec_hex8_lower(n).take(i - 1).push(
            spec_hex8_lower(n)[i - 1],
        ));
    }
    assert(spec_hex8_lower(n).take(8) =~= spec_hex8_lower(n));
}

/// A string holding exactly the given characters.
#[verifier::external_body]
pub fn string_from_chars(chars: &Vec<char>) -> (r: String)
    ensures
        r@ == chars@,
{
    chars.iter().collect()
}

/// The text that `{:?}` formatting gives a string: the string in double quotes with its special
/// characters escaped.
pub uninterp spec fn spec_debug_quote(s: Seq<char>) -> Seq<char>;

/// Formats a string as `{:?}` does.
#[verifier::external_body]
pub fn debug_quote(s: &str) -> (r: String)
    ensures
        r@ == spec_debug_quote(s@),
{
    format!("{:?}", s)
}

/// Appends the `{:?}` text of a string.
pub fn push_debug_quoted(out: &mut Vec<char>, s: &str)
    ensures
        final(out)@ == old(out)@ + spec_debug_quote(s@),
{
    let q = debug_quote(s);
    push_str(out, q.as_str());
}

/// Appends the characters of another character vector.
pub fn push_chars(out: &mut Vec<char>, s: &Vec<char>)
    ensures
        final(out)@ == old(out)@ + s@,
{
    let mut i: usize = 0;
    while i < s.len()
        invariant
            i <= s@.len(),
            out@ == old(out)@ + s@.take(i as int),
        decreases s@.len() - i,
    {
        out.push(s[i]);
        i += 1;
        assert(s@.take(i as int) =~= s@.take(i - 1).push(s@[i - 1]));
    }
    assert(s@.take(s@.len() as int) =~= s@);
}

/// `parts` joined by `sep`.
pub open spec fn spec_join(parts: Seq<Seq<char>>, sep: Seq<char>) -> Seq<char>
    decreases parts.len(),
{
    if parts.len() == 0 {
        Seq::empty()
    } else if parts.len() == 1 {
        parts[0]
    } else {
        spec_join(parts.drop_last(), sep) + sep + parts.last()
    }
}

/// Appends `parts` joined by `sep`.
pub fn push_joined(out: &mut Vec<char>, parts: &Vec<String>, sep: &str)
    ensures
        final(out)@ == old(out)@ + spec_join(parts@.map_values(|t: String| t@), sep@),
{
    let ghost v = parts@.map_values(|t: String| t@);
    let mut i: usize = 0;
    while i < parts.len()
        invariant
            v == parts@.map_values(|t: String| t@),
            i <= parts@.len(),
            out@ == old(out)@ + spec_join(v.take(i as int), sep@),
        decreases parts@.len() - i,
    {
        if i > 0 {
            push_str(out, sep);
        }
        push_str(out, parts[i].as_str());
        i += 1;
        assert(v.take(i as int).drop_last() =~= v.take(i - 1));
        if i == 1 {
            assert(v.take(0) =~= Seq::<Seq<char>>::empty());
        }
    }
    assert(v.take(parts@.len() as int) =~= v);
}

} // verus!
