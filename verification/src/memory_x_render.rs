//! Rendering of `memory.x` linker scripts from memory regions.
//!
//! A regions file has one region per line: `<name> <address-hex> <size-decimal> <access:rwx>
//! <kind:flash|ram>`.
pub mod laws;

use vstd::prelude::*;

use crate::fmt::{
    pad_left, pad_right, push_chars_padded_left, push_decimal, push_hex8_upper, push_padded_right,
    push_str, spec_decimal, spec_hex8_upper, string_from_chars, decimal_chars,
};
use crate::mem_layout::str_eq;
use crate::order::{
    filter_seq, insert_pos, insert_sorted, insertion_sort, lemma_filter_nonempty, lemma_filter_push,
    lemma_insert_pos_is, lemma_insert_sorted_contains, lemma_insertion_sort_len,
    lemma_insertion_sort_push, str_lt, text_lt,
};
use crate::search::{
    find_first, find_first_elem, find_last, is_first_match, is_last_match, lemma_find_first_is,
    lemma_find_first_none, lemma_find_last_is, lemma_find_last_none,
};
use crate::text::{
    all_digits, ascii_lower, ascii_lowercase, to_ascii_lowercase, char_digit, char_is, char_to_ascii_lower, digits_value, lines,
    parse_unsigned, spec_lines, spec_parse_unsigned, spec_trim, spec_words, split_whitespace, trim,
};

verus! {

/// One memory region as listed in a regions file.
#[derive(Clone, Debug)]
pub struct Region {
    pub name: String,
    pub address: u32,
    pub size: u32,
    pub access: String,
    pub kind: String,
}

/// The mathematical content of a [`Region`].
pub struct RegionView {
    pub name: Seq<char>,
    pub address: u32,
    pub size: u32,
    pub access: Seq<char>,
    pub kind: Seq<char>,
}

impl View for Region {
    type V = RegionView;

    open spec fn view(&self) -> RegionView {
        RegionView {
            name: self.name@,
            address: self.address,
            size: self.size,
            access: self.access@,
            kind: self.kind@,
        }
    }
}

/// The views of a sequence of regions.
pub open spec fn views(s: Seq<Region>) -> Seq<RegionView> {
    s.map_values(|r: Region| r@)
}

/// A copy of a region.
pub fn copy_region(r: &Region) -> (c: Region)
    ensures
        c == *r,
{
    Region {
        name: r.name.clone(),
        address: r.address,
        size: r.size,
        access: r.access.clone(),
        kind: r.kind.clone(),
    }
}

/// The `LENGTH` field of a region: whole kibibytes as `   nK`, other sizes as plain bytes.
pub open spec fn spec_format_length(size: u32) -> Seq<char> {
    if size >= 1024 && size % 1024 == 0 {
        pad_left(spec_decimal((size / 1024) as nat), 4) + seq!['K']
    } else {
        pad_left(spec_decimal(size as nat), 5)
    }
}

/// `s` without its `-` characters.
pub open spec fn remove_dashes(s: Seq<char>) -> Seq<char>
    decreases s.len(),
{
    if s.len() == 0 {
        s
    } else if s.last() == '-' {
        remove_dashes(s.drop_last())
    } else {
        remove_dashes(s.drop_last()).push(s.last())
    }
}

/// The attribute list of a region: its access letters without dashes, in parentheses.
pub open spec fn spec_access_attrs(access: Seq<char>) -> Seq<char> {
    seq!['('] + remove_dashes(access) + seq![')']
}

fn push_length(out: &mut Vec<char>, size: u32)
    ensures
        final(out)@ == old(out)@ + spec_format_length(size),
{
    if size >= 1024 && size % 1024 == 0 {
        let digits = decimal_chars((size / 1024) as u64);
        push_chars_padded_left(out, &digits, 4);
        out.push('K');
        assert(final(out)@ =~= old(out)@ + spec_format_length(size));
    } else {
        let digits = decimal_chars(size as u64);
        push_chars_padded_left(out, &digits, 5);
    }
}

/// The `LENGTH` field of a region.
pub fn format_length(size: u32) -> (r: String)
    ensures
        r@ == spec_format_length(size),
{
    let mut out: Vec<char> = Vec::new();
    push_length(&mut out, size);
    assert(out@ =~= spec_format_length(size));
    string_from_chars(&out)
}

fn push_access_attrs(out: &mut Vec<char>, access: &str)
    ensures
        final(out)@ == old(out)@ + spec_access_attrs(access@),
{
    out.push('(');
    let ghost mid = out@;
    let n = access.unicode_len();
    let mut i: usize = 0;
    while i < n
        invariant
            n == access@.len(),
            i <= n,
            out@ == mid + remove_dashes(access@.take(i as int)),
        decreases n - i,
    {
        let c = access.get_char(i);
        if c != '-' {
            out.push(c);
        }
        i += 1;
        assert(access@.take(i as int).drop_last() =~= access@.take(i - 1));
    }
    assert(access@.take(n as int) =~= access@);
    out.push(')');
    assert(final(out)@ =~= old(out)@ + spec_access_attrs(access@));
}

/// The attribute list of a region, such as `(rwx)` for `rwx` and `(rx)` for `r-x`.
pub fn access_attrs(access: &str) -> (r: String)
    ensures
        r@ == spec_access_attrs(access@),
{
    let mut out: Vec<char> = Vec::new();
    push_access_attrs(&mut out, access);
    assert(out@ =~= spec_access_attrs(access@));
    string_from_chars(&out)
}

/// A flash region.
pub open spec fn is_flash(r: RegionView) -> bool {
    r.kind == "flash"@
}

/// A RAM region.
pub open spec fn is_ram(r: RegionView) -> bool {
    r.kind == "ram"@
}

/// Predicate form of [`is_ram`].
pub open spec fn ram_region() -> spec_fn(RegionView) -> bool {
    |r: RegionView| is_ram(r)
}

/// `p` is the first flash region of lowest address.
pub open spec fn is_primary_flash(regions: Seq<RegionView>, p: int) -> bool {
    &&& 0 <= p < regions.len()
    &&& is_flash(regions[p])
    &&& forall|j: int|
        0 <= j < regions.len() && is_flash(#[trigger] regions[j]) ==> regions[p].address
            <= regions[j].address
    &&& forall|j: int|
        0 <= j < p && is_flash(#[trigger] regions[j]) ==> regions[p].address < regions[j].address
}

/// The first flash region of lowest address.
pub open spec fn spec_primary_flash(regions: Seq<RegionView>) -> RegionView {
    regions[choose|p: int| is_primary_flash(regions, p)]
}

/// One region line of the `MEMORY` block.
pub open spec fn region_line(r: RegionView) -> Seq<char> {
    "    "@ + pad_right(r.name, 6) + " "@ + pad_right(spec_access_attrs(r.access), 5)
        + " : ORIGIN = 0x"@ + spec_hex8_upper(r.address) + ", LENGTH = "@ + spec_format_length(
        r.size,
    ) + "\n"@
}

/// The lines of the first `n` regions.
pub open spec fn region_lines(regions: Seq<RegionView>, n: int) -> Seq<char>
    decreases n,
{
    if n <= 0 {
        Seq::empty()
    } else {
        region_lines(regions, n - 1) + region_line(regions[n - 1])
    }
}

/// The linker script for `regions`: a `MEMORY` block with a line per region (preceded by a boot
/// alias `CODE` at address 0 when the primary flash starts at `0x0800_0000`), then region aliases
/// that put code in the primary flash (or its alias) and data in the first RAM region.
pub open spec fn spec_render_memory_x(regions: Seq<RegionView>) -> Seq<char> {
    let primary = spec_primary_flash(regions);
    let ram_name = find_first_elem(regions, ram_region())->0.name;
    let boot_aliased = primary.address == 0x0800_0000;
    let target = if boot_aliased {
        "CODE"@
    } else {
        primary.name
    };
    "MEMORY\n{\n"@ + (if boot_aliased {
        "    CODE   (rx)  : ORIGIN = 0x00000000, LENGTH = "@ + spec_format_length(primary.size)
            + " /* "@ + primary.name + " boot alias */\n"@
    } else {
        Seq::empty()
    }) + region_lines(regions, regions.len() as int) + "}\n\n"@ + (if boot_aliased {
        "REGION_ALIAS(\"FLASH\", CODE);\n\n"@
    } else {
        Seq::empty()
    }) + "REGION_ALIAS(\"REGION_TEXT\", "@ + target + ");\n"@ + "REGION_ALIAS(\"REGION_RODATA\", "@
        + target + ");\n"@ + "REGION_ALIAS(\"REGION_DATA\", "@ + ram_name + ");\n"@
        + "REGION_ALIAS(\"REGION_BSS\", "@ + ram_name + ");\n"@ + "REGION_ALIAS(\"REGION_HEAP\", "@
        + ram_name + ");\n"@ + "REGION_ALIAS(\"REGION_STACK\", "@ + ram_name + ");\n"@
}

fn push_region_line(out: &mut Vec<char>, r: &Region)
    ensures
        final(out)@ == old(out)@ + region_line(r@),
{
    push_str(out, "    ");
    push_padded_right(out, r.name.as_str(), 6);
    push_str(out, " ");
    let mut attrs: Vec<char> = Vec::new();
    push_access_attrs(&mut attrs, r.access.as_str());
    let attrs_str = string_from_chars(&attrs);
    proof {
        assert(attrs@ =~= spec_access_attrs(r.access@));
    }
    push_padded_right(out, attrs_str.as_str(), 5);
    push_str(out, " : ORIGIN = 0x");
    push_hex8_upper(out, r.address);
    push_str(out, ", LENGTH = ");
    push_length(out, r.size);
    push_str(out, "\n");
    assert(final(out)@ =~= old(out)@ + region_line(r@));
}

/// Index of the first flash region of lowest address.
fn primary_flash_index(regions: &[Region]) -> (r: usize)
    requires
        exists|i: int| 0 <= i < regions@.len() && is_flash(#[trigger] views(regions@)[i]),
    ensures
        is_primary_flash(views(regions@), r as int),
{
    let ghost v = views(regions@);
    let mut best: Option<usize> = None;
    let mut i: usize = 0;
    while i < regions.len()
        invariant
            v == views(regions@),
            i <= regions@.len(),
            match best {
                Some(p) => {
                    &&& p < i
                    &&& is_flash(v[p as int])
                    &&& forall|j: int|
                        0 <= j < i && is_flash(#[trigger] v[j]) ==> v[p as int].address <= v[j].address
                    &&& forall|j: int|
                        0 <= j < p && is_flash(#[trigger] v[j]) ==> v[p as int].address < v[j].address
                },
                None => forall|j: int| 0 <= j < i ==> !is_flash(#[trigger] v[j]),
            },
        decreases regions@.len() - i,
    {
        if str_eq(regions[i].kind.as_str(), "flash") {
            match best {
                Some(p) => {
                    if regions[i].address < regions[p].address {
                        best = Some(i);
                    }
                },
                None => {
                    best = Some(i);
                },
            }
        }
        i += 1;
    }
    match best {
        Some(p) => p,
        None => {
            proof {
                let k = choose|k: int| 0 <= k < regions@.len() && is_flash(#[trigger] v[k]);
                assert(!is_flash(v[k]));
            }
            0
        },
    }
}

/// Index of the first RAM region.
fn first_ram_index(regions: &[Region]) -> (r: usize)
    requires
        exists|i: int| 0 <= i < regions@.len() && is_ram(#[trigger] views(regions@)[i]),
    ensures
        is_first_match(views(regions@), ram_region(), r as int),
{
    let ghost v = views(regions@);
    let mut i: usize = 0;
    while i < regions.len()
        invariant
            v == views(regions@),
            i <= regions@.len(),
            forall|j: int| 0 <= j < i ==> !ram_region()(#[trigger] v[j]),
        decreases regions@.len() - i,
    {
        if str_eq(regions[i].kind.as_str(), "ram") {
            return i;
        }
        i += 1;
    }
    proof {
        let k = choose|k: int| 0 <= k < regions@.len() && is_ram(#[trigger] v[k]);
        assert(!ram_region()(v[k]));
    }
    0
}

/// Renders the `memory.x` linker script for resolved regions.
pub fn render_memory_x(regions: &[Region]) -> (s: String)
    requires
        exists|i: int| 0 <= i < regions@.len() && is_flash(#[trigger] views(regions@)[i]),
        exists|i: int| 0 <= i < regions@.len() && is_ram(#[trigger] views(regions@)[i]),
    ensures
        s@ == spec_render_memory_x(views(regions@)),
{
    let ghost v = views(regions@);
    let p = primary_flash_index(regions);
    let primary = &regions[p];
    let ram = first_ram_index(regions);
    let ram_name = regions[ram].name.as_str();
    proof {
        lemma_find_first_is(v, ram_region(), ram as int);
        let c = choose|q: int| is_primary_flash(v, q);
        assert(is_primary_flash(v, c));
        if c < p {
            assert(v[p as int].address <= v[c].address);
        } else if p < c {
            assert(v[c].address <= v[p as int].address);
        }
        assert(spec_primary_flash(v) == primary@);
    }
    let boot_aliased = primary.address == 0x0800_0000;
    let mut out: Vec<char> = Vec::new();
    push_str(&mut out, "MEMORY\n{\n");
    if boot_aliased {
        push_str(&mut out, "    CODE   (rx)  : ORIGIN = 0x00000000, LENGTH = ");
        push_length(&mut out, primary.size);
        push_str(&mut out, " /* ");
        push_str(&mut out, primary.name.as_str());
        push_str(&mut out, " boot alias */\n");
    }
    let ghost head = out@;
    let mut i: usize = 0;
    while i < regions.len()
        invariant
            v == views(regions@),
            i <= regions@.len(),
            out@ == head + region_lines(v, i as int),
        decreases regions@.len() - i,
    {
        push_region_line(&mut out, &regions[i]);
        i += 1;
        assert(out@ =~= head + region_lines(v, i as int));
    }
    push_str(&mut out, "}\n\n");
    if boot_aliased {
        push_str(&mut out, "REGION_ALIAS(\"FLASH\", CODE);\n\n");
    }
    let target: &str = if boot_aliased {
        "CODE"
    } else {
        primary.name.as_str()
    };
    push_str(&mut out, "REGION_ALIAS(\"REGION_TEXT\", ");
    push_str(&mut out, target);
    push_str(&mut out, ");\n");
    push_str(&mut out, "REGION_ALIAS(\"REGION_RODATA\", ");
    push_str(&mut out, target);
    push_str(&mut out, ");\n");
    push_str(&mut out, "REGION_ALIAS(\"REGION_DATA\", ");
    push_str(&mut out, ram_name);
    push_str(&mut out, ");\n");
    push_str(&mut out, "REGION_ALIAS(\"REGION_BSS\", ");
    push_str(&mut out, ram_name);
    push_str(&mut out, ");\n");
    push_str(&mut out, "REGION_ALIAS(\"REGION_HEAP\", ");
    push_str(&mut out, ram_name);
    push_str(&mut out, ");\n");
    push_str(&mut out, "REGION_ALIAS(\"REGION_STACK\", ");
    push_str(&mut out, ram_name);
    push_str(&mut out, ");\n");
    assert(out@ =~= spec_render_memory_x(v));
    string_from_chars(&out)
}

/// A region name split at its last `_` into a prefix and a decimal bank number (`USR_1` is
/// `USR` and 1); `None` when there is no `_`, the number is missing, holds a non-digit, or does not
/// fit in `u32`.
pub open spec fn spec_split_name(name: Seq<char>) -> Option<(Seq<char>, u32)> {
    match find_last(name, char_is('_')) {
        None => None,
        Some(i) => {
            let suffix = name.skip(i + 1);
            if suffix.len() == 0 || !all_digits(suffix, 10) || digits_value(suffix, 10) > u32::MAX {
                None
            } else {
                Some((name.take(i), digits_value(suffix, 10) as u32))
            }
        },
    }
}

/// Splits a region name into its prefix and bank number.
pub fn split_name(name: &str) -> (r: Option<(&str, u32)>)
    ensures
        match spec_split_name(name@) {
            Some((p, n)) => r matches Some((q, m)) && q@ == p && m == n,
            None => r is None,
        },
{
    let len = name.unicode_len();
    let mut i: usize = len;
    while i > 0 && name.get_char(i - 1) != '_'
        invariant
            len == name@.len(),
            i <= len,
            forall|j: int| i <= j < len ==> !char_is('_')(#[trigger] name@[j]),
        decreases i,
    {
        i -= 1;
    }
    if i == 0 {
        proof {
            lemma_find_last_none(name@, char_is('_'));
        }
        return None;
    }
    let pos = i - 1;
    proof {
        assert(is_last_match(name@, char_is('_'), pos as int));
        lemma_find_last_is(name@, char_is('_'), pos as int);
    }
    let prefix = name.substring_char(0, pos);
    let suffix = name.substring_char(pos + 1, len);
    assert(suffix@ =~= name@.skip(pos + 1));
    assert(prefix@ =~= name@.take(pos as int));
    let m = suffix.unicode_len();
    if m == 0 {
        return None;
    }
    let mut k: usize = 0;
    while k < m
        invariant
            m == suffix@.len(),
            suffix@ == name@.skip(pos + 1),
            find_last(name@, char_is('_')) == Some(pos as int),
            k <= m,
            forall|j: int| 0 <= j < k ==> #[trigger] char_digit(suffix@[j], 10) is Some,
        decreases m - k,
    {
        let c = suffix.get_char(k);
        if !('0' <= c && c <= '9') {
            assert(char_digit(suffix@[k as int], 10) is None);
            assert(!all_digits(suffix@, 10));
            return None;
        }
        k += 1;
    }
    assert(all_digits(suffix@, 10));
    assert(suffix@[0] != '+') by {
        assert(char_digit(suffix@[0], 10) is Some);
    }
    match parse_unsigned(suffix, 10, 0xFFFF_FFFF) {
        Some(v) => Some((prefix, v as u32)),
        None => None,
    }
}

/// Predicate: `b` comes before `a` in address order.
pub open spec fn addr_gt() -> spec_fn(RegionView, RegionView) -> bool {
    |a: RegionView, b: RegionView| a.address > b.address
}

/// The key of the final order of resolved regions: flash regions first, then by address.
pub open spec fn flash_addr_gt() -> spec_fn(RegionView, RegionView) -> bool {
    |a: RegionView, b: RegionView|
        (a.kind != "flash"@ && b.kind == "flash"@) || ((a.kind != "flash"@) == (b.kind != "flash"@)
            && a.address > b.address)
}

fn address_after(a: &Region, b: &Region) -> (r: bool)
    ensures
        r == addr_gt()(a@, b@),
{
    a.address > b.address
}

fn flash_address_after(a: &Region, b: &Region) -> (r: bool)
    ensures
        r == flash_addr_gt()(a@, b@),
{
    let a_not_flash = !str_eq(a.kind.as_str(), "flash");
    let b_not_flash = !str_eq(b.kind.as_str(), "flash");
    (a_not_flash && !b_not_flash) || (a_not_flash == b_not_flash && a.address > b.address)
}

fn region_after(a: &Region, b: &Region, by_flash: bool) -> (r: bool)
    ensures
        r == (if by_flash { flash_addr_gt() } else { addr_gt() })(a@, b@),
{
    if by_flash {
        flash_address_after(a, b)
    } else {
        address_after(a, b)
    }
}

/// Stably sorts regions by address (`by_flash == false`) or by flash-first then address
/// (`by_flash == true`).
fn sort_regions(v: &Vec<Region>, by_flash: bool) -> (r: Vec<Region>)
    ensures
        views(r@) == insertion_sort(views(v@), if by_flash { flash_addr_gt() } else { addr_gt() }),
{
    let ghost gt = if by_flash {
        flash_addr_gt()
    } else {
        addr_gt()
    };
    let mut out: Vec<Region> = Vec::new();
    let mut i: usize = 0;
    assert(views(v@).take(0) =~= Seq::<RegionView>::empty());
    while i < v.len()
        invariant
            i <= v@.len(),
            gt == (if by_flash { flash_addr_gt() } else { addr_gt() }),
            views(out@) == insertion_sort(views(v@).take(i as int), gt),
        decreases v@.len() - i,
    {
        let x = copy_region(&v[i]);
        let mut pos: usize = 0;
        while pos < out.len() && !region_after(&out[pos], &x, by_flash)
            invariant
                pos <= out@.len(),
                x == v@[i as int],
                gt == (if by_flash { flash_addr_gt() } else { addr_gt() }),
                forall|j: int| 0 <= j < pos ==> !gt(#[trigger] views(out@)[j], x@),
            decreases out@.len() - pos,
        {
            pos += 1;
        }
        proof {
            lemma_insert_pos_is(views(out@), x@, gt, pos as int);
            lemma_insertion_sort_push(views(v@), i as int, gt);
            assert(views(v@)[i as int] == x@);
        }
        let ghost before = out@;
        out.insert(pos, x);
        proof {
            assert(views(out@) =~= views(before).insert(pos as int, x@));
            assert(views(v@).take(i + 1) == views(v@).take(i + 1));
        }
        i += 1;
    }
    assert(views(v@).take(v@.len() as int) =~= views(v@));
    out
}

/// The prefix of a region's name, when the name has a bank number.
pub open spec fn region_prefix(r: RegionView) -> Option<Seq<char>> {
    match spec_split_name(r.name) {
        Some((p, _)) => Some(p),
        None => None,
    }
}

/// Predicate: a non-empty region without a bank number.
pub open spec fn is_standalone() -> spec_fn(RegionView) -> bool {
    |r: RegionView| r.size != 0 && region_prefix(r) is None
}

/// Predicate: a non-empty region of the bank group `p`.
pub open spec fn in_group(p: Seq<char>) -> spec_fn(RegionView) -> bool {
    |r: RegionView| r.size != 0 && region_prefix(r) == Some(p)
}

/// Predicate: prefix `a` comes after prefix `b`.
pub open spec fn prefix_gt() -> spec_fn(Seq<char>, Seq<char>) -> bool {
    |a: Seq<char>, b: Seq<char>| text_lt(b, a)
}

/// The distinct prefixes of the non-empty regions of `s`, in ascending text order.
pub open spec fn prefix_order(s: Seq<RegionView>) -> Seq<Seq<char>>
    decreases s.len(),
{
    if s.len() == 0 {
        Seq::empty()
    } else {
        let q = prefix_order(s.drop_last());
        let r = s.last();
        if r.size != 0 && region_prefix(r) is Some && !q.contains(region_prefix(r)->0) {
            insert_sorted(q, region_prefix(r)->0, prefix_gt())
        } else {
            q
        }
    }
}

/// The non-empty regions of group `p`, stably sorted by address.
pub open spec fn spec_group(s: Seq<RegionView>, p: Seq<char>) -> Seq<RegionView> {
    insertion_sort(filter_seq(s, in_group(p)), addr_gt())
}

/// Consecutive regions `k` and `k + 1` of a group touch and agree on access and kind.
pub open spec fn window_ok(g: Seq<RegionView>, k: int) -> bool {
    &&& g[k].address + g[k].size == g[k + 1].address
    &&& g[k].access == g[k + 1].access
    &&& g[k].kind == g[k + 1].kind
}

/// The regions of a group form one contiguous span of one access and kind.
pub open spec fn contiguous(g: Seq<RegionView>) -> bool {
    forall|k: int| 0 <= k < g.len() - 1 ==> #[trigger] window_ok(g, k)
}

/// The sum of the sizes of a group.
pub open spec fn sum_sizes(g: Seq<RegionView>) -> nat
    decreases g.len(),
{
    if g.len() == 0 {
        0
    } else {
        sum_sizes(g.drop_last()) + (g.last().size as nat)
    }
}


/// The group `p` must stay split: its lower-cased prefix is one of `split`.
pub open spec fn split_forced(split: Seq<Seq<char>>, p: Seq<char>) -> bool {
    split.contains(ascii_lowercase(p))
}

/// The one region that a mergeable group becomes: named by the prefix, spanning the group.
pub open spec fn merged(p: Seq<char>, g: Seq<RegionView>) -> RegionView {
    RegionView {
        name: p,
        address: g[0].address,
        size: sum_sizes(g) as u32,
        access: g[0].access,
        kind: g[0].kind,
    }
}

/// What a group contributes: one merged region, or its regions in address order.
pub open spec fn group_output(split: Seq<Seq<char>>, p: Seq<char>, g: Seq<RegionView>) -> Seq<RegionView> {
    if contiguous(g) && !split_forced(split, p) {
        seq![merged(p, g)]
    } else {
        g
    }
}

/// The contributions of the groups `ps`, in order.
pub open spec fn grouped(s: Seq<RegionView>, split: Seq<Seq<char>>, ps: Seq<Seq<char>>) -> Seq<RegionView>
    decreases ps.len(),
{
    if ps.len() == 0 {
        Seq::empty()
    } else {
        grouped(s, split, ps.drop_last()) + group_output(split, ps.last(), spec_group(s, ps.last()))
    }
}

/// The resolved regions: empty regions dropped; each bank group (`USR_1`, `USR_2`, ...) merged into
/// one region named by its prefix when contiguous and not forced to stay split, else kept; then
/// flash first, each kind in address order (ties in input order).
pub open spec fn spec_resolve_regions(s: Seq<RegionView>, split: Seq<Seq<char>>) -> Seq<RegionView> {
    insertion_sort(
        filter_seq(s, is_standalone()) + grouped(s, split, prefix_order(s)),
        flash_addr_gt(),
    )
}

/// Resolving group `g` stays within `u32`: the end address of every window reached while checking
/// contiguity, and the merged size.
pub open spec fn group_defined(split: Seq<Seq<char>>, p: Seq<char>, g: Seq<RegionView>) -> bool {
    &&& forall|k: int|
        0 <= k < g.len() - 1 && (forall|k2: int| 0 <= k2 < k ==> #[trigger] window_ok(g, k2))
            ==> #[trigger] g[k].address + g[k].size <= u32::MAX
    &&& contiguous(g) && !split_forced(split, p) ==> sum_sizes(g) <= u32::MAX
}

/// Resolving `s` stays within `u32` for every group.
pub open spec fn resolve_defined(s: Seq<RegionView>, split: Seq<Seq<char>>) -> bool {
    forall|i: int|
        0 <= i < prefix_order(s).len() ==> group_defined(
            split,
            #[trigger] prefix_order(s)[i],
            spec_group(s, prefix_order(s)[i]),
        )
}

/// The views of a sequence of strings.
pub open spec fn str_views(s: Seq<String>) -> Seq<Seq<char>> {
    s.map_values(|x: String| x@)
}

/// Every prefix in the prefix order belongs to some non-empty region.
proof fn lemma_prefix_order_sound(s: Seq<RegionView>, p: Seq<char>)
    requires
        prefix_order(s).contains(p),
    ensures
        exists|i: int| 0 <= i < s.len() && in_group(p)(#[trigger] s[i]),
    decreases s.len(),
{
    let q = prefix_order(s.drop_last());
    let r = s.last();
    if r.size != 0 && region_prefix(r) is Some && !q.contains(region_prefix(r)->0) {
        lemma_insert_sorted_contains(q, region_prefix(r)->0, prefix_gt(), p);
        if p == region_prefix(r)->0 {
            assert(in_group(p)(s[s.len() - 1]));
        } else {
            lemma_prefix_order_sound(s.drop_last(), p);
            let i = choose|i: int| 0 <= i < s.drop_last().len() && in_group(p)(#[trigger] s.drop_last()[i]);
            assert(in_group(p)(s[i]));
        }
    } else {
        lemma_prefix_order_sound(s.drop_last(), p);
        let i = choose|i: int| 0 <= i < s.drop_last().len() && in_group(p)(#[trigger] s.drop_last()[i]);
        assert(in_group(p)(s[i]));
    }
}

/// Whether `v` holds a string equal to `s`.
pub fn contains_str(v: &Vec<String>, s: &str) -> (r: bool)
    ensures
        r == str_views(v@).contains(s@),
{
    let mut i: usize = 0;
    while i < v.len()
        invariant
            i <= v@.len(),
            forall|j: int| 0 <= j < i ==> v@[j]@ != s@,
        decreases v@.len() - i,
    {
        if str_eq(v[i].as_str(), s) {
            assert(str_views(v@)[i as int] == s@);
            return true;
        }
        i += 1;
    }
    proof {
        if str_views(v@).contains(s@) {
            let k = choose|k: int| 0 <= k < str_views(v@).len() && str_views(v@)[k] == s@;
            assert(v@[k]@ == s@);
        }
    }
    false
}

/// The non-empty regions without a bank number, in order.
fn standalone_regions(regions: &[Region]) -> (r: Vec<Region>)
    ensures
        views(r@) == filter_seq(views(regions@), is_standalone()),
{
    let mut out: Vec<Region> = Vec::new();
    let mut i: usize = 0;
    assert(views(regions@).take(0) =~= Seq::<RegionView>::empty());
    while i < regions.len()
        invariant
            i <= regions@.len(),
            views(out@) == filter_seq(views(regions@).take(i as int), is_standalone()),
        decreases regions@.len() - i,
    {
        proof {
            lemma_filter_push(views(regions@), i as int, is_standalone());
        }
        let r = &regions[i];
        if r.size != 0 && split_name(r.name.as_str()).is_none() {
            let ghost before = out@;
            out.push(copy_region(r));
            assert(views(out@) =~= views(before).push(r@));
        }
        i += 1;
    }
    assert(views(regions@).take(regions@.len() as int) =~= views(regions@));
    out
}

/// The non-empty regions of group `p`, in order.
fn group_members(regions: &[Region], p: &str) -> (r: Vec<Region>)
    ensures
        views(r@) == filter_seq(views(regions@), in_group(p@)),
{
    let mut out: Vec<Region> = Vec::new();
    let mut i: usize = 0;
    assert(views(regions@).take(0) =~= Seq::<RegionView>::empty());
    while i < regions.len()
        invariant
            i <= regions@.len(),
            views(out@) == filter_seq(views(regions@).take(i as int), in_group(p@)),
        decreases regions@.len() - i,
    {
        proof {
            lemma_filter_push(views(regions@), i as int, in_group(p@));
        }
        let r = &regions[i];
        let member = r.size != 0 && match split_name(r.name.as_str()) {
            Some((q, _)) => str_eq(q, p),
            None => false,
        };
        if member {
            let ghost before = out@;
            out.push(copy_region(r));
            assert(views(out@) =~= views(before).push(r@));
        }
        i += 1;
    }
    assert(views(regions@).take(regions@.len() as int) =~= views(regions@));
    out
}

/// The distinct prefixes of the non-empty regions, in ascending text order.
fn prefix_list(regions: &[Region]) -> (r: Vec<String>)
    ensures
        str_views(r@) == prefix_order(views(regions@)),
{
    let mut out: Vec<String> = Vec::new();
    let mut i: usize = 0;
    assert(views(regions@).take(0) =~= Seq::<RegionView>::empty());
    while i < regions.len()
        invariant
            i <= regions@.len(),
            str_views(out@) == prefix_order(views(regions@).take(i as int)),
        decreases regions@.len() - i,
    {
        let r = &regions[i];
        proof {
            assert(views(regions@).take(i + 1).drop_last() =~= views(regions@).take(i as int));
            assert(views(regions@).take(i + 1).last() == r@);
        }
        if r.size != 0 {
            if let Some((p, _)) = split_name(r.name.as_str()) {
                if !contains_str(&out, p) {
                    let mut pos: usize = 0;
                    while pos < out.len() && !str_lt(p, out[pos].as_str())
                        invariant
                            pos <= out@.len(),
                            forall|j: int| 0 <= j < pos ==> !prefix_gt()(#[trigger] str_views(out@)[j], p@),
                        decreases out@.len() - pos,
                    {
                        pos += 1;
                    }
                    proof {
                        lemma_insert_pos_is(str_views(out@), p@, prefix_gt(), pos as int);
                    }
                    let ghost before = out@;
                    out.insert(pos, p.to_owned());
                    assert(str_views(out@) =~= str_views(before).insert(pos as int, p@));
                }
            }
        }
        i += 1;
    }
    assert(views(regions@).take(regions@.len() as int) =~= views(regions@));
    out
}

/// Whether a group forms one contiguous span of one access and kind.
fn is_contiguous(g: &Vec<Region>) -> (r: bool)
    ensures
        r == contiguous(views(g@)),
{
    if g.len() < 2 {
        return true;
    }
    let mut k: usize = 0;
    while k < g.len() - 1
        invariant
            g@.len() >= 2,
            k + 1 <= g@.len(),
            forall|j: int| 0 <= j < k ==> #[trigger] window_ok(views(g@), j),
        decreases g@.len() - k,
    {
        let a = &g[k];
        let b = &g[k + 1];
        if !(a.address as u64 + a.size as u64 == b.address as u64 && str_eq(a.access.as_str(), b.access.as_str())
            && str_eq(a.kind.as_str(), b.kind.as_str())) {
            assert(!window_ok(views(g@), k as int));
            return false;
        }
        k += 1;
    }
    true
}

/// A prefix of a group has at most the group's total size.
pub proof fn lemma_sum_sizes_prefix(g: Seq<RegionView>, i: int, j: int)
    requires
        0 <= i <= j <= g.len(),
    ensures
        sum_sizes(g.take(i)) <= sum_sizes(g.take(j)),
    decreases j - i,
{
    if i < j {
        lemma_sum_sizes_prefix(g, i, j - 1);
        assert(g.take(j).drop_last() =~= g.take(j - 1));
    }
}

/// The sum of the sizes of a group.
fn total_size(g: &Vec<Region>) -> (r: u64)
    requires
        sum_sizes(views(g@)) <= u32::MAX,
    ensures
        r == sum_sizes(views(g@)),
{
    let mut total: u64 = 0;
    let mut i: usize = 0;
    assert(views(g@).take(0) =~= Seq::<RegionView>::empty());
    while i < g.len()
        invariant
            i <= g@.len(),
            total == sum_sizes(views(g@).take(i as int)),
            sum_sizes(views(g@)) <= u32::MAX,
        decreases g@.len() - i,
    {
        assert(views(g@).take(i + 1).drop_last() =~= views(g@).take(i as int));
        proof {
            lemma_sum_sizes_prefix(views(g@), i + 1, g@.len() as int);
            assert(views(g@).take(g@.len() as int) =~= views(g@));
        }
        total = total + g[i].size as u64;
        i += 1;
    }
    assert(views(g@).take(g@.len() as int) =~= views(g@));
    total
}

/// Appends what group `p` contributes to the resolved regions.
fn push_group_output(out: &mut Vec<Region>, regions: &[Region], split_prefixes: &Vec<String>, p: &str)
    requires
        prefix_order(views(regions@)).contains(p@),
        group_defined(str_views(split_prefixes@), p@, spec_group(views(regions@), p@)),
    ensures
        views(final(out)@) == views(old(out)@) + group_output(
            str_views(split_prefixes@),
            p@,
            spec_group(views(regions@), p@),
        ),
{
    let ghost s = views(regions@);
    let members = group_members(regions, p);
    let group = sort_regions(&members, false);
    proof {
        assert(views(group@) == spec_group(s, p@));
        lemma_prefix_order_sound(s, p@);
        let i = choose|i: int| 0 <= i < s.len() && in_group(p@)(#[trigger] s[i]);
        lemma_filter_nonempty(s, in_group(p@), i);
        lemma_insertion_sort_len(filter_seq(s, in_group(p@)), addr_gt());
    }
    let lower = to_ascii_lowercase(p);
    let forced = contains_str(split_prefixes, lower.as_str());
    let ghost before = out@;
    if is_contiguous(&group) && !forced {
        let total = total_size(&group);
        let first = &group[0];
        out.push(
            Region {
                name: p.to_owned(),
                address: first.address,
                size: total as u32,
                access: first.access.clone(),
                kind: first.kind.clone(),
            },
        );
        assert(views(out@) =~= views(before) + seq![merged(p@, views(group@))]);
    } else {
        let mut j: usize = 0;
        while j < group.len()
            invariant
                j <= group@.len(),
                views(out@) == views(before) + views(group@).take(j as int),
            decreases group@.len() - j,
        {
            let ghost prev = out@;
            out.push(copy_region(&group[j]));
            assert(views(group@)[j as int] == group@[j as int]@);
            assert(views(group@).take(j + 1) =~= views(group@).take(j as int).push(group@[j as int]@));
            assert(views(out@) =~= views(prev).push(group@[j as int]@));
            j += 1;
            assert(views(out@) =~= views(before) + views(group@).take(j as int));
        }
        assert(views(group@).take(group@.len() as int) =~= views(group@));
    }
}

/// Resolves regions into the ones a linker script lists: empty regions are dropped; each bank
/// group (`USR_1`, `USR_2`, ...) becomes one region named by its prefix when its banks are
/// contiguous with one access and kind and its lower-cased prefix is not in `split_prefixes`, else
/// its banks stay in address order; finally flash comes first, each kind in address order.
#[verifier::rlimit(40)]
pub fn resolve_regions(regions: &[Region], split_prefixes: &Vec<String>) -> (r: Vec<Region>)
    requires
        resolve_defined(views(regions@), str_views(split_prefixes@)),
    ensures
        views(r@) == spec_resolve_regions(views(regions@), str_views(split_prefixes@)),
{
    let ghost s = views(regions@);
    let ghost split = str_views(split_prefixes@);
    let mut out = standalone_regions(regions);
    let prefixes = prefix_list(regions);
    let ghost ps = prefix_order(s);
    let ghost head = filter_seq(s, is_standalone());
    let mut k: usize = 0;
    assert(ps.take(0) =~= Seq::<Seq<char>>::empty());
    assert(head + grouped(s, split, ps.take(0)) =~= head);
    while k < prefixes.len()
        invariant
            s == views(regions@),
            split == str_views(split_prefixes@),
            ps == prefix_order(s),
            head == filter_seq(s, is_standalone()),
            str_views(prefixes@) == ps,
            resolve_defined(s, split),
            k <= prefixes@.len(),
            views(out@) == head + grouped(s, split, ps.take(k as int)),
        decreases prefixes@.len() - k,
    {
        let p = prefixes[k].as_str();
        assert(ps[k as int] == p@);
        proof {
            assert(ps.contains(p@));
            assert(group_defined(split, ps[k as int], spec_group(s, ps[k as int])));
            assert(ps.take(k + 1).drop_last() =~= ps.take(k as int));
        }
        let ghost before = out@;
        push_group_output(&mut out, regions, split_prefixes, p);
        proof {
            let t = ps.take(k + 1);
            assert(t.last() == p@);
            assert(grouped(s, split, t) == grouped(s, split, ps.take(k as int)) + group_output(
                split,
                p@,
                spec_group(s, p@),
            ));
        }
        k += 1;
        assert(views(out@) =~= head + grouped(s, split, ps.take(k as int)));
    }
    assert(ps.take(prefixes@.len() as int) =~= ps);
    sort_regions(&out, true)
}

/// `s` without any number of leading `0x`.
pub open spec fn strip_hex_prefix(s: Seq<char>) -> Seq<char>
    decreases s.len(),
{
    if s.len() >= 2 && s[0] == '0' && s[1] == 'x' {
        strip_hex_prefix(s.skip(2))
    } else {
        s
    }
}

/// One line of a regions file: `Some(None)` for a blank or `#` comment line, `Some(Some(r))` for a
/// region line of five fields, `None` for a malformed line (not five fields, a bad hexadecimal
/// address, or a bad decimal size).
pub open spec fn spec_parse_line(line: Seq<char>) -> Option<Option<RegionView>> {
    let t = spec_trim(line);
    if t.len() == 0 || t[0] == '#' {
        Some(None)
    } else {
        let parts = spec_words(t);
        if parts.len() != 5 {
            None
        } else {
            match spec_parse_unsigned(strip_hex_prefix(parts[1]), 16, u32::MAX as nat) {
                None => None,
                Some(address) => match spec_parse_unsigned(parts[2], 10, u32::MAX as nat) {
                    None => None,
                    Some(size) => Some(
                        Some(
                            RegionView {
                                name: parts[0],
                                address: address as u32,
                                size: size as u32,
                                access: parts[3],
                                kind: parts[4],
                            },
                        ),
                    ),
                },
            }
        }
    }
}

/// The regions of the first `n` lines, or `None` when one of them is malformed.
pub open spec fn parse_lines(ls: Seq<Seq<char>>, n: int) -> Option<Seq<RegionView>>
    decreases n,
{
    if n <= 0 {
        Some(Seq::empty())
    } else {
        match parse_lines(ls, n - 1) {
            None => None,
            Some(rs) => match spec_parse_line(ls[n - 1]) {
                None => None,
                Some(None) => Some(rs),
                Some(Some(r)) => Some(rs.push(r)),
            },
        }
    }
}

/// The regions listed in a regions file, or `None` when a line is malformed.
pub open spec fn spec_parse_regions(src: Seq<char>) -> Option<Seq<RegionView>> {
    parse_lines(spec_lines(src), spec_lines(src).len() as int)
}

fn strip_hex_prefix_str(s: &str) -> (r: &str)
    ensures
        r@ == strip_hex_prefix(s@),
{
    let n = s.unicode_len();
    let mut i: usize = 0;
    assert(s@.skip(0) =~= s@);
    while n >= 2 && i <= n - 2 && s.get_char(i) == '0' && s.get_char(i + 1) == 'x'
        invariant
            n == s@.len(),
            i <= n,
            strip_hex_prefix(s@) == strip_hex_prefix(s@.skip(i as int)),
        decreases n - i,
    {
        assert(s@.skip(i as int).skip(2) =~= s@.skip(i + 2));
        i += 2;
    }
    s.substring_char(i, n)
}

fn parse_line(line: &str) -> (r: Option<Option<Region>>)
    ensures
        match spec_parse_line(line@) {
            None => r is None,
            Some(None) => r matches Some(None),
            Some(Some(v)) => r matches Some(Some(x)) && x@ == v,
        },
{
    let t = trim(line);
    if t.unicode_len() == 0 || t.get_char(0) == '#' {
        return Some(None);
    }
    let parts = split_whitespace(t);
    if parts.len() != 5 {
        return None;
    }
    proof {
        assert(parts@.map_values(|w: &str| w@)[1] == parts@[1]@);
        assert(parts@.map_values(|w: &str| w@)[2] == parts@[2]@);
        assert(parts@.map_values(|w: &str| w@)[0] == parts@[0]@);
        assert(parts@.map_values(|w: &str| w@)[3] == parts@[3]@);
        assert(parts@.map_values(|w: &str| w@)[4] == parts@[4]@);
    }
    let address = match parse_unsigned(strip_hex_prefix_str(parts[1]), 16, 0xFFFF_FFFF) {
        Some(a) => a,
        None => return None,
    };
    let size = match parse_unsigned(parts[2], 10, 0xFFFF_FFFF) {
        Some(v) => v,
        None => return None,
    };
    Some(
        Some(
            Region {
                name: parts[0].to_owned(),
                address: address as u32,
                size: size as u32,
                access: parts[3].to_owned(),
                kind: parts[4].to_owned(),
            },
        ),
    )
}

/// Parses a regions file, or returns `None` when a line is malformed (where `parse_regions` would
/// refuse the file).
pub fn try_parse_regions(src: &str) -> (r: Option<Vec<Region>>)
    ensures
        match spec_parse_regions(src@) {
            Some(rs) => r matches Some(v) && views(v@) == rs,
            None => r is None,
        },
{
    let ls = lines(src);
    let ghost lv = ls@.map_values(|l: &str| l@);
    let mut out: Vec<Region> = Vec::new();
    let mut i: usize = 0;
    while i < ls.len()
        invariant
            lv == ls@.map_values(|l: &str| l@),
            lv == spec_lines(src@),
            i <= ls@.len(),
            parse_lines(lv, i as int) == Some(views(out@)),
        decreases ls@.len() - i,
    {
        assert(lv[i as int] == ls@[i as int]@);
        match parse_line(ls[i]) {
            None => {
                proof {
                    lemma_parse_lines_none_stays(lv, i + 1, lv.len() as int);
                }
                return None;
            },
            Some(None) => {},
            Some(Some(r)) => {
                let ghost before = out@;
                out.push(r);
                assert(views(out@) =~= views(before).push(r@));
            },
        }
        i += 1;
    }
    Some(out)
}

proof fn lemma_parse_lines_none_stays(ls: Seq<Seq<char>>, k: int, n: int)
    requires
        0 <= k <= n,
        parse_lines(ls, k) is None,
    ensures
        parse_lines(ls, n) is None,
    decreases n - k,
{
    if n > k {
        lemma_parse_lines_none_stays(ls, k, n - 1);
    }
}

/// Parses a well-formed regions file.
pub fn parse_regions(src: &str) -> (r: Vec<Region>)
    requires
        spec_parse_regions(src@) is Some,
    ensures
        views(r@) == spec_parse_regions(src@)->0,
{
    match try_parse_regions(src) {
        Some(v) => v,
        None => Vec::new(),
    }
}


fn sum_fits(g: &Vec<Region>) -> (r: bool)
    ensures
        r == (sum_sizes(views(g@)) <= u32::MAX),
{
    let ghost v = views(g@);
    let mut total: u64 = 0;
    let mut i: usize = 0;
    assert(v.take(0) =~= Seq::<RegionView>::empty());
    while i < g.len()
        invariant
            v == views(g@),
            i <= g@.len(),
            total == sum_sizes(v.take(i as int)),
            total <= u32::MAX,
        decreases g@.len() - i,
    {
        assert(v.take(i + 1).drop_last() =~= v.take(i as int));
        total = total + g[i].size as u64;
        i += 1;
        if total > 0xffff_ffffu64 {
            proof {
                lemma_sum_sizes_prefix(v, i as int, g@.len() as int);
                assert(v.take(g@.len() as int) =~= v);
            }
            return false;
        }
    }
    assert(v.take(g@.len() as int) =~= v);
    true
}

proof fn lemma_windows_stop(v: Seq<RegionView>, k: int)
    requires
        0 <= k < v.len() - 1,
        forall|j: int| 0 <= j < k ==> #[trigger] window_ok(v, j),
        forall|j: int| 0 <= j <= k ==> #[trigger] v[j].address + v[j].size <= u32::MAX,
        !window_ok(v, k),
    ensures
        forall|k1: int|
            0 <= k1 < v.len() - 1 && (forall|k2: int| 0 <= k2 < k1 ==> #[trigger] window_ok(v, k2))
                ==> #[trigger] v[k1].address + v[k1].size <= u32::MAX,
        !contiguous(v),
{
    assert forall|k1: int|
        0 <= k1 < v.len() - 1 && (forall|k2: int| 0 <= k2 < k1 ==> #[trigger] window_ok(v, k2))
        implies #[trigger] v[k1].address + v[k1].size <= u32::MAX by {
        if k1 > k {
            assert(window_ok(v, k));
        }
    }
}

fn group_fits(g: &Vec<Region>, forced: bool, Ghost(split): Ghost<Seq<Seq<char>>>, Ghost(p): Ghost<Seq<char>>) -> (r: bool)
    requires
        forced == split_forced(split, p),
    ensures
        r == group_defined(split, p, views(g@)),
{
    let ghost v = views(g@);
    if g.len() >= 2 {
        let n = g.len() - 1;
        let mut k: usize = 0;
        while k < n
            invariant
                v == views(g@),
                n == g@.len() - 1,
                k <= n,
                forall|j: int| 0 <= j < k ==> #[trigger] window_ok(v, j),
                forall|j: int| 0 <= j < k ==> #[trigger] v[j].address + v[j].size <= u32::MAX,
            decreases n - k,
        {
            let a = &g[k];
            let b = &g[k + 1];
            if a.address as u64 + a.size as u64 > 0xffff_ffffu64 {
                assert(!group_defined(split, p, v)) by {
                    assert(forall|k2: int| 0 <= k2 < k ==> #[trigger] window_ok(v, k2));
                    assert(!(v[k as int].address + v[k as int].size <= u32::MAX));
                }
                return false;
            }
            if !(a.address as u64 + a.size as u64 == b.address as u64 && str_eq(a.access.as_str(), b.access.as_str())
                && str_eq(a.kind.as_str(), b.kind.as_str())) {
                proof {
                    lemma_windows_stop(v, k as int);
                }
                return true;
            }
            k += 1;
        }
    }
    assert(contiguous(v));
    if forced {
        true
    } else {
        sum_fits(g)
    }
}

/// Whether resolving `regions` with the split prefixes stays within `u32` (see
/// [`resolve_regions`]).
pub fn regions_resolve_defined(regions: &[Region], split_prefixes: &Vec<String>) -> (r: bool)
    ensures
        r == resolve_defined(views(regions@), str_views(split_prefixes@)),
{
    let ghost s = views(regions@);
    let ghost split = str_views(split_prefixes@);
    let prefixes = prefix_list(regions);
    let mut k: usize = 0;
    while k < prefixes.len()
        invariant
            s == views(regions@),
            split == str_views(split_prefixes@),
            str_views(prefixes@) == prefix_order(s),
            k <= prefixes@.len(),
            forall|i: int| 0 <= i < k ==> group_defined(split, #[trigger] prefix_order(s)[i], spec_group(s, prefix_order(s)[i])),
        decreases prefixes@.len() - k,
    {
        let p = prefixes[k].as_str();
        assert(p@ == prefix_order(s)[k as int]);
        let members = group_members(regions, p);
        let group = sort_regions(&members, false);
        assert(views(group@) == spec_group(s, p@));
        let lower = to_ascii_lowercase(p);
        let forced = contains_str(split_prefixes, lower.as_str());
        if !group_fits(&group, forced, Ghost(split), Ghost(p@)) {
            return false;
        }
        k += 1;
    }
    true
}

} // verus!
