//! Laws of the generated regions files: what the generator writes, the `memory.x` renderer
//! reads back.
use vstd::prelude::*;

use crate::fmt::{hex_digit_lower, spec_decimal, spec_hex8_lower};
use crate::generator::dump::render_view;
use crate::generator::memory::{regions_line, spec_access_str, spec_kind_str, spec_regions_text};
use crate::mem_layout::{MemoryRegionKind, MemoryRegionView};
use crate::memory_x_render::{parse_lines, spec_parse_line, spec_parse_regions, strip_hex_prefix, RegionView};
use crate::search::{find_first, lemma_find_first_is, lemma_find_first_none, lemma_find_last_is};
use crate::text::{
    all_digits, char_digit, char_is, digits_value, is_whitespace, lemma_decimal_reads_back, lemma_parse_decimal,
    not_whitespace, spec_lines, spec_parse_unsigned, spec_trim, spec_words, whitespace, word_len,
};

verus! {

/// A region name that a regions line can carry: not empty, without whitespace or line breaks,
/// and not starting with `#`.
pub open spec fn line_safe_name(name: Seq<char>) -> bool {
    &&& name.len() > 0
    &&& name[0] != '#'
    &&& forall|i: int| 0 <= i < name.len() ==> !is_whitespace(#[trigger] name[i])
}

/// A text without whitespace (so also without line breaks).
pub open spec fn no_space(s: Seq<char>) -> bool {
    forall|i: int| 0 <= i < s.len() ==> !is_whitespace(#[trigger] s[i])
}

/// A region that a regions line can carry: a name a line can carry, and access and kind texts
/// that are not empty and hold no whitespace.
pub open spec fn line_safe_region(r: RegionView) -> bool {
    &&& line_safe_name(r.name)
    &&& r.access.len() > 0 && no_space(r.access)
    &&& r.kind.len() > 0 && no_space(r.kind)
}

/// A regions line without its line break: the name, the address as `0x` and eight lower-case
/// hexadecimal digits, the size in decimal, the access text and the kind text, separated by
/// single spaces.
pub open spec fn line_body(r: RegionView) -> Seq<char> {
    r.name + " 0x"@ + spec_hex8_lower(r.address) + " "@ + spec_decimal(r.size as nat) + " "@
        + r.access + " "@ + r.kind
}

/// A regions file in the line format that the generator writes: one line per region, in order.
pub open spec fn regions_file(rs: Seq<RegionView>) -> Seq<char>
    decreases rs.len(),
{
    if rs.len() == 0 {
        Seq::empty()
    } else {
        regions_file(rs.drop_last()) + line_body(rs.last()) + seq!['\n']
    }
}

proof fn lemma_hex_digit(d: u32)
    requires
        d < 16,
    ensures
        char_digit(hex_digit_lower(d), 16) == Some(d as nat),
        !is_whitespace(hex_digit_lower(d)),
        hex_digit_lower(d) != 'x',
        hex_digit_lower(d) != '+',
{
    let c = hex_digit_lower(d);
    if d < 10 {
        assert(c as int == 48 + d);
    } else {
        assert(c as int == 87 + d);
    }
}

proof fn lemma_nibble(n: u32, s: u32)
    by (bit_vector)
    requires
        s <= 28,
    ensures
        (n >> s) & 0xf < 16,
{
}

proof fn lemma_hex_step(n: u32, s: u32)
    by (bit_vector)
    requires
        s <= 24,
    ensures
        (n >> ((s + 4) as u32)) * 16 + ((n >> s) & 0xf) == n >> s,
{
}

proof fn lemma_hex_top(n: u32)
    by (bit_vector)
    ensures
        (n >> 28u32) & 0xf == n >> 28u32,
        n >> 0u32 == n,
{
}

proof fn lemma_hex_prefix(n: u32, k: int)
    requires
        1 <= k <= 8,
    ensures
        digits_value(spec_hex8_lower(n).take(k), 16) == n >> ((32 - 4 * k) as u32),
    decreases k,
{
    let h = spec_hex8_lower(n);
    lemma_nibble(n, (32 - 4 * k) as u32);
    lemma_hex_digit((n >> ((32 - 4 * k) as u32)) & 0xf);
    assert(h[k - 1] == hex_digit_lower((n >> ((32 - 4 * k) as u32)) & 0xf));
    assert(h.take(k).drop_last() =~= h.take(k - 1));
    assert(h.take(k).last() == h[k - 1]);
    assert(digits_value(h.take(k), 16) == digits_value(h.take(k - 1), 16) * 16 + char_digit(h[k - 1], 16)->0);
    if k == 1 {
        lemma_hex_top(n);
        assert(h.take(0) =~= Seq::<char>::empty());
    } else {
        lemma_hex_prefix(n, k - 1);
        lemma_hex_step(n, (32 - 4 * k) as u32);
        assert(((32 - 4 * k) as u32 + 4) as u32 == (32 - 4 * (k - 1)) as u32);
    }
}

/// The eight hexadecimal digits of `n` read back as `n`.
proof fn lemma_hex8_reads_back(n: u32)
    ensures
        all_digits(spec_hex8_lower(n), 16),
        digits_value(spec_hex8_lower(n), 16) == n,
        no_space(spec_hex8_lower(n)),
        spec_hex8_lower(n)[0] != '+',
        spec_hex8_lower(n)[1] != 'x',
{
    let h = spec_hex8_lower(n);
    assert forall|i: int| 0 <= i < 8 implies char_digit(#[trigger] h[i], 16) == Some(((n >> ((28 - 4 * i) as u32)) & 0xf) as nat)
        && !is_whitespace(h[i]) && h[i] != 'x' && h[i] != '+' by {
        lemma_nibble(n, (28 - 4 * i) as u32);
        lemma_hex_digit((n >> ((28 - 4 * i) as u32)) & 0xf);
    }
    lemma_hex_prefix(n, 8);
    assert(h.take(8) =~= h);
    lemma_hex_top(n);
}

proof fn lemma_lines_cons(l: Seq<char>, rest: Seq<char>)
    requires
        forall|i: int| 0 <= i < l.len() ==> #[trigger] l[i] != '\n',
        l.len() > 0 && l.last() != '\r',
    ensures
        spec_lines(l + seq!['\n'] + rest) == seq![l] + spec_lines(rest),
{
    let s = l + seq!['\n'] + rest;
    assert forall|j: int| 0 <= j < l.len() implies !char_is('\n')(#[trigger] s[j]) by {
        assert(s[j] == l[j]);
    }
    assert(s[l.len() as int] == '\n');
    lemma_find_first_is(s, char_is('\n'), l.len() as int);
    assert(s.take(l.len() as int) =~= l);
    assert(s.skip(l.len() as int + 1) =~= rest);
}

proof fn lemma_words_cons(a: Seq<char>, b: Seq<char>)
    requires
        a.len() > 0,
        no_space(a),
    ensures
        spec_words(a + " "@ + b) == seq![a] + spec_words(b),
{
    reveal_strlit(" ");
    let s = a + " "@ + b;
    assert forall|j: int| 0 <= j < a.len() implies !whitespace()(#[trigger] s[j]) by {
        assert(s[j] == a[j]);
    }
    assert(s[a.len() as int] == ' ');
    assert(is_whitespace(' '));
    lemma_find_first_is(s, whitespace(), a.len() as int);
    assert(word_len(s) == a.len());
    assert(s[0] == a[0]);
    assert(s.take(a.len() as int) =~= a);
    let t = s.skip(a.len() as int);
    assert(t[0] == ' ');
    assert(t.drop_first() =~= b);
    assert(spec_words(t) == spec_words(t.drop_first()));
    assert(spec_words(s) == seq![s.take(word_len(s))] + spec_words(s.skip(word_len(s))));
}

proof fn lemma_words_single(a: Seq<char>)
    requires
        a.len() > 0,
        no_space(a),
    ensures
        spec_words(a) == seq![a],
{
    assert forall|j: int| 0 <= j < a.len() implies !whitespace()(#[trigger] a[j]) by {}
    lemma_find_first_none(a, whitespace());
    assert(word_len(a) == a.len());
    assert(a.take(a.len() as int) =~= a);
    assert(a.skip(a.len() as int) =~= Seq::<char>::empty());
    assert(spec_words(Seq::<char>::empty()) == Seq::<Seq<char>>::empty());
    assert(!is_whitespace(a[0]));
    assert(spec_words(a) == seq![a.take(word_len(a))] + spec_words(a.skip(word_len(a))));
    assert(seq![a] + Seq::<Seq<char>>::empty() =~= seq![a]);
}

proof fn lemma_decimal_no_space(n: nat)
    ensures
        no_space(spec_decimal(n)),
        spec_decimal(n).len() > 0,
{
    lemma_decimal_reads_back(n);
    let d = spec_decimal(n);
    assert forall|i: int| 0 <= i < d.len() implies !is_whitespace(#[trigger] d[i]) by {
        assert(char_digit(d[i], 10) is Some);
        assert('0' <= d[i] && d[i] <= '9' || 'a' <= d[i] && d[i] <= 'z' || 'A' <= d[i] && d[i] <= 'Z');
    }
}

proof fn lemma_fixed_texts(r: MemoryRegionView)
    ensures
        no_space(spec_access_str(r.access)),
        spec_access_str(r.access).len() == 3,
        no_space(spec_kind_str(r.kind)),
        spec_kind_str(r.kind).len() > 0,
{
    reveal_strlit("flash");
    reveal_strlit("ram");
}

#[verifier::rlimit(30)]
proof fn lemma_parse_body(r: RegionView)
    requires
        line_safe_region(r),
    ensures
        spec_parse_line(line_body(r)) == Some(Some(r)),
{
    reveal_strlit(" 0x");
    reveal_strlit(" ");
    reveal_strlit("0x");
    let hex = spec_hex8_lower(r.address);
    let dec = spec_decimal(r.size as nat);
    let acc = r.access;
    let kind = r.kind;
    lemma_hex8_reads_back(r.address);
    lemma_decimal_no_space(r.size as nat);
    let w1 = "0x"@ + hex;
    assert(w1 =~= seq!['0', 'x'] + hex);
    assert(no_space(w1)) by {
        assert forall|i: int| 0 <= i < w1.len() implies !is_whitespace(#[trigger] w1[i]) by {
            if i >= 2 {
                assert(w1[i] == hex[i - 2]);
            }
        }
    }
    let body = line_body(r);
    assert(body =~= r.name + " "@ + (w1 + " "@ + (dec + " "@ + (acc + " "@ + kind))));
    // trimming changes nothing
    assert(!is_whitespace(body[0])) by {
        assert(body[0] == r.name[0]);
    }
    assert(!is_whitespace(body.last())) by {
        assert(body.last() == kind.last());
        assert(!is_whitespace(kind[kind.len() - 1]));
    }
    lemma_find_first_is(body, not_whitespace(), 0);
    lemma_find_last_is(body, not_whitespace(), body.len() - 1);
    assert(spec_trim(body) =~= body);
    assert(body[0] != '#');
    // the five words
    lemma_words_single(kind);
    lemma_words_cons(acc, kind);
    lemma_words_cons(dec, acc + " "@ + kind);
    lemma_words_cons(w1, dec + " "@ + (acc + " "@ + kind));
    lemma_words_cons(r.name, w1 + " "@ + (dec + " "@ + (acc + " "@ + kind)));
    let parts = spec_words(body);
    assert(parts =~= seq![r.name, w1, dec, acc, kind]);
    // the address and the size read back
    assert(w1[0] == '0' && w1[1] == 'x');
    assert(w1.skip(2) =~= hex);
    assert(strip_hex_prefix(w1) == strip_hex_prefix(hex));
    assert(strip_hex_prefix(hex) == hex) by {
        assert(hex[1] != 'x');
    }
    assert(spec_parse_unsigned(hex, 16, u32::MAX as nat) == Some(r.address as nat));
    lemma_parse_decimal(r.size as nat, u32::MAX as nat);
}

proof fn lemma_regions_file_front(rs: Seq<RegionView>)
    requires
        rs.len() > 0,
    ensures
        regions_file(rs) == line_body(rs[0]) + seq!['\n'] + regions_file(rs.drop_first()),
    decreases rs.len(),
{
    if rs.len() == 1 {
        assert(rs.drop_last() =~= Seq::<RegionView>::empty());
        assert(rs.drop_first() =~= Seq::<RegionView>::empty());
        assert(regions_file(rs.drop_last()) == Seq::<char>::empty());
        assert(regions_file(rs.drop_first()) == Seq::<char>::empty());
        assert(rs.last() == rs[0]);
        assert(regions_file(rs) =~= line_body(rs[0]) + seq!['\n'] + regions_file(rs.drop_first()));
    } else {
        lemma_regions_file_front(rs.drop_last());
        assert(rs.drop_last().drop_first() =~= rs.drop_first().drop_last());
        assert(rs.drop_last()[0] == rs[0]);
        assert(rs.drop_first().last() == rs.last());
        assert(regions_file(rs) =~= line_body(rs[0]) + seq!['\n'] + regions_file(rs.drop_first()));
    }
}

proof fn lemma_body_has_no_break(r: RegionView)
    requires
        line_safe_region(r),
    ensures
        forall|i: int| 0 <= i < line_body(r).len() ==> #[trigger] line_body(r)[i] != '\n',
        line_body(r).len() > 0,
        line_body(r).last() != '\r',
{
    reveal_strlit(" 0x");
    reveal_strlit(" ");
    let body = line_body(r);
    lemma_hex8_reads_back(r.address);
    lemma_decimal_no_space(r.size as nat);
    assert(is_whitespace('\n'));
    assert(is_whitespace('\r'));
    let n1 = r.name.len() as int;
    let hex = spec_hex8_lower(r.address);
    let dec = spec_decimal(r.size as nat);
    let acc = r.access;
    let kind = r.kind;
    assert forall|i: int| 0 <= i < body.len() implies #[trigger] body[i] != '\n' by {
        if i < n1 {
            assert(body[i] == r.name[i]);
        } else if i < n1 + 3 {
        } else if i < n1 + 11 {
            assert(body[i] == hex[i - n1 - 3]);
        } else if i < n1 + 12 {
        } else if i < n1 + 12 + dec.len() {
            assert(body[i] == dec[i - n1 - 12]);
        } else if i < n1 + 13 + dec.len() {
        } else if i < n1 + 13 + dec.len() + acc.len() {
            assert(body[i] == acc[i - n1 - 13 - dec.len()]);
        } else if i < n1 + 14 + dec.len() + acc.len() {
        } else {
            assert(body[i] == kind[i - n1 - 14 - dec.len() - acc.len()]);
        }
    }
    assert(body.last() == kind.last());
    assert(!is_whitespace(kind[kind.len() - 1]));
}

proof fn lemma_lines_of_regions(rs: Seq<RegionView>)
    requires
        forall|i: int| 0 <= i < rs.len() ==> line_safe_region(#[trigger] rs[i]),
    ensures
        spec_lines(regions_file(rs)) == rs.map_values(|r: RegionView| line_body(r)),
    decreases rs.len(),
{
    if rs.len() == 0 {
        assert(spec_lines(Seq::<char>::empty()) =~= Seq::<Seq<char>>::empty());
        assert(rs.map_values(|r: RegionView| line_body(r)) =~= Seq::<Seq<char>>::empty());
    } else {
        lemma_regions_file_front(rs);
        assert(line_safe_region(rs[0]));
        lemma_body_has_no_break(rs[0]);
        assert forall|i: int| 0 <= i < rs.drop_first().len() implies line_safe_region(#[trigger] rs.drop_first()[i]) by {
            assert(rs.drop_first()[i] == rs[i + 1]);
        }
        lemma_lines_of_regions(rs.drop_first());
        lemma_lines_cons(line_body(rs[0]), regions_file(rs.drop_first()));
        assert(rs.map_values(|r: RegionView| line_body(r)) =~= seq![line_body(rs[0])] + rs.drop_first().map_values(
            |r: RegionView| line_body(r),
        ));
    }
}

proof fn lemma_parse_bodies(rs: Seq<RegionView>, n: int)
    requires
        0 <= n <= rs.len(),
        forall|i: int| 0 <= i < rs.len() ==> line_safe_region(#[trigger] rs[i]),
    ensures
        parse_lines(rs.map_values(|r: RegionView| line_body(r)), n) == Some(rs.take(n)),
    decreases n,
{
    let ls = rs.map_values(|r: RegionView| line_body(r));
    if n == 0 {
        assert(rs.take(0) =~= Seq::<RegionView>::empty());
    } else {
        lemma_parse_bodies(rs, n - 1);
        assert(line_safe_region(rs[n - 1]));
        lemma_parse_body(rs[n - 1]);
        assert(ls[n - 1] == line_body(rs[n - 1]));
        assert(rs.take(n) =~= rs.take(n - 1).push(rs[n - 1]));
    }
}

/// A regions file in the generator's line format reads back, line by line, as the regions it
/// lists: names, addresses, sizes, access and kind texts — for regions whose texts a line can
/// carry (a name that is not empty, holds no whitespace and does not start with `#`; access and
/// kind texts that are not empty and hold no whitespace).
pub proof fn law_regions_file_reads_back(rs: Seq<RegionView>)
    requires
        forall|i: int| 0 <= i < rs.len() ==> line_safe_region(#[trigger] rs[i]),
    ensures
        spec_parse_regions(regions_file(rs)) == Some(rs),
{
    lemma_lines_of_regions(rs);
    lemma_parse_bodies(rs, rs.len() as int);
    assert(rs.take(rs.len() as int) =~= rs);
}

/// The regions file the generator writes is the file in its line format of the render regions.
proof fn lemma_regions_text_is_file(rs: Seq<MemoryRegionView>)
    ensures
        spec_regions_text(rs) == regions_file(rs.map_values(|r: MemoryRegionView| render_view(r))),
    decreases rs.len(),
{
    let vs = rs.map_values(|r: MemoryRegionView| render_view(r));
    if rs.len() > 0 {
        lemma_regions_text_is_file(rs.drop_last());
        assert(vs.drop_last() =~= rs.drop_last().map_values(|r: MemoryRegionView| render_view(r)));
        assert(vs.last() == render_view(rs.last()));
        assert(regions_line(rs.last()) =~= line_body(render_view(rs.last())) + seq!['\n']);
    } else {
        assert(vs =~= Seq::<RegionView>::empty());
    }
}

/// The regions file that the generator writes for a chip's regions reads back, line by line,
/// as the render regions of those regions (names, addresses, sizes, access and kind texts) —
/// for regions whose names a line can carry (not empty, no whitespace, not starting with `#`).
pub proof fn law_regions_file_round_trip(rs: Seq<MemoryRegionView>)
    requires
        forall|i: int| 0 <= i < rs.len() ==> line_safe_name(#[trigger] rs[i].name),
    ensures
        spec_parse_regions(spec_regions_text(rs)) == Some(rs.map_values(|r: MemoryRegionView| render_view(r))),
{
    let vs = rs.map_values(|r: MemoryRegionView| render_view(r));
    assert forall|i: int| 0 <= i < vs.len() implies line_safe_region(#[trigger] vs[i]) by {
        assert(vs[i] == render_view(rs[i]));
        assert(line_safe_name(rs[i].name));
        lemma_fixed_texts(rs[i]);
    }
    lemma_regions_text_is_file(rs);
    law_regions_file_reads_back(vs);
}

} // verus!
