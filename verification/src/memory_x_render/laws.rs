//! Laws of the linker script renderer and of region resolution: where data lives, and what a
//! merged bank group stands for.
use vstd::prelude::*;

use crate::search::{find_first, find_first_elem, is_first_match, lemma_find_first_is};

use crate::order::{filter_seq, insertion_sort, lemma_insertion_sort_contains, lemma_insertion_sort_keeps};

use super::{
    addr_gt, contiguous, flash_addr_gt, group_defined, group_output, grouped, in_group, is_flash, is_ram,
    is_standalone, lemma_sum_sizes_prefix, merged, prefix_order, ram_region, region_lines, region_prefix,
    resolve_defined, spec_format_length, spec_group, spec_primary_flash, spec_render_memory_x,
    spec_resolve_regions, split_forced, sum_sizes, window_ok, RegionView,
};

verus! {

/// The closing alias lines of a linker script: data, BSS, heap and stack in the region `ram`.
pub open spec fn data_aliases(ram: Seq<char>) -> Seq<char> {
    "REGION_ALIAS(\"REGION_DATA\", "@ + ram + ");\n"@ + "REGION_ALIAS(\"REGION_BSS\", "@ + ram + ");\n"@
        + "REGION_ALIAS(\"REGION_HEAP\", "@ + ram + ");\n"@ + "REGION_ALIAS(\"REGION_STACK\", "@ + ram
        + ");\n"@
}

/// The linker script puts data, BSS, heap and stack in the first RAM region of the list: it ends
/// with the four alias lines that name the region of kind `ram` of least position.
pub proof fn law_data_lives_in_first_ram(regions: Seq<RegionView>, i: int)
    requires
        0 <= i < regions.len(),
        is_ram(regions[i]),
        forall|j: int| 0 <= j < i ==> !is_ram(#[trigger] regions[j]),
    ensures
        ({
            let t = spec_render_memory_x(regions);
            let a = data_aliases(regions[i].name);
            a.len() <= t.len() && t.subrange(t.len() - a.len(), t.len() as int) == a
        }),
{
    assert forall|j: int| 0 <= j < i implies !ram_region()(#[trigger] regions[j]) by {
        assert(!is_ram(regions[j]));
    }
    lemma_find_first_is(regions, ram_region(), i);
    let ram_name = find_first_elem(regions, ram_region())->0.name;
    assert(ram_name == regions[i].name);
    let primary = spec_primary_flash(regions);
    let boot_aliased = primary.address == 0x0800_0000;
    let target = if boot_aliased { "CODE"@ } else { primary.name };
    let pre = "MEMORY\n{\n"@ + (if boot_aliased {
        "    CODE   (rx)  : ORIGIN = 0x00000000, LENGTH = "@ + spec_format_length(primary.size)
            + " /* "@ + primary.name + " boot alias */\n"@
    } else {
        Seq::empty()
    }) + region_lines(regions, regions.len() as int) + "}\n\n"@ + (if boot_aliased {
        "REGION_ALIAS(\"FLASH\", CODE);\n\n"@
    } else {
        Seq::empty()
    }) + "REGION_ALIAS(\"REGION_TEXT\", "@ + target + ");\n"@ + "REGION_ALIAS(\"REGION_RODATA\", "@
        + target + ");\n"@;
    let a = data_aliases(regions[i].name);
    let t = spec_render_memory_x(regions);
    assert(t =~= pre + a);
    assert(t.subrange(t.len() - a.len(), t.len() as int) =~= a);
}

/// An element of a filter is an element of the input that satisfies the predicate, and back.
proof fn lemma_filter_contains<A>(s: Seq<A>, p: spec_fn(A) -> bool, y: A)
    ensures
        filter_seq(s, p).contains(y) <==> (s.contains(y) && p(y)),
    decreases s.len(),
{
    if s.len() > 0 {
        lemma_filter_contains(s.drop_last(), p, y);
        let f = filter_seq(s.drop_last(), p);
        if s.drop_last().contains(y) {
            let k = choose|k: int| 0 <= k < s.drop_last().len() && s.drop_last()[k] == y;
            assert(s[k] == y);
        }
        if s.contains(y) {
            let k = choose|k: int| 0 <= k < s.len() && s[k] == y;
            if k < s.len() - 1 {
                assert(s.drop_last()[k] == y);
            }
        }
        if p(s.last()) {
            let fp = f.push(s.last());
            if f.contains(y) {
                let k = choose|k: int| 0 <= k < f.len() && f[k] == y;
                assert(fp[k] == y);
            }
            if fp.contains(y) {
                let k = choose|k: int| 0 <= k < fp.len() && fp[k] == y;
                if k < f.len() {
                    assert(f[k] == y);
                }
            }
            if y == s.last() {
                assert(fp[f.len() as int] == y);
            }
        }
    }
}

/// An output region of the groups `ps` comes from the output of one of them.
proof fn lemma_grouped_contains(s: Seq<RegionView>, split: Seq<Seq<char>>, ps: Seq<Seq<char>>, r: RegionView)
    requires
        grouped(s, split, ps).contains(r),
    ensures
        exists|i: int| 0 <= i < ps.len() && #[trigger] group_output(split, ps[i], spec_group(s, ps[i])).contains(r),
    decreases ps.len(),
{
    if ps.len() > 0 {
        let a = grouped(s, split, ps.drop_last());
        let b = group_output(split, ps.last(), spec_group(s, ps.last()));
        let k = choose|k: int| 0 <= k < (a + b).len() && (a + b)[k] == r;
        if k < a.len() {
            assert(a[k] == r);
            lemma_grouped_contains(s, split, ps.drop_last(), r);
            let i = choose|i: int| 0 <= i < ps.drop_last().len()
                && #[trigger] group_output(split, ps.drop_last()[i], spec_group(s, ps.drop_last()[i])).contains(r);
            assert(ps.drop_last()[i] == ps[i]);
        } else {
            assert(b[k - a.len()] == r);
            assert(ps.last() == ps[ps.len() - 1]);
            assert(group_output(split, ps[ps.len() - 1], spec_group(s, ps[ps.len() - 1])).contains(r));
        }
    }
}

/// The regions of a contiguous group share the first one's access and kind, and each starts
/// where the sizes before it end.
proof fn lemma_contiguous_members(g: Seq<RegionView>, j: int)
    requires
        contiguous(g),
        0 <= j < g.len(),
    ensures
        g[j].access == g[0].access,
        g[j].kind == g[0].kind,
        g[j].address == g[0].address + sum_sizes(g.take(j)),
        sum_sizes(g.take(j + 1)) == sum_sizes(g.take(j)) + g[j].size,
    decreases j,
{
    assert(g.take(j + 1).drop_last() =~= g.take(j));
    if j == 0 {
        assert(g.take(0) =~= Seq::<RegionView>::empty());
    } else {
        lemma_contiguous_members(g, j - 1);
        assert(window_ok(g, j - 1));
    }
}

/// A region that resolution makes by merging a bank group stands for exactly its members: every
/// non-empty input region of the bank prefix that names the merged region has the merged
/// region's access and kind and lies within its span. (A region of the output that is not one of
/// the input regions is a merged group.)
pub proof fn law_merged_group_agrees(s: Seq<RegionView>, split: Seq<Seq<char>>, r: RegionView, x: RegionView)
    requires
        resolve_defined(s, split),
        spec_resolve_regions(s, split).contains(r),
        !s.contains(r),
        s.contains(x),
        x.size != 0,
        region_prefix(x) == Some(r.name),
    ensures
        x.access == r.access,
        x.kind == r.kind,
        r.address <= x.address,
        x.address + x.size <= r.address + r.size,
{
    let a = filter_seq(s, is_standalone());
    let ps = prefix_order(s);
    let b = grouped(s, split, ps);
    lemma_insertion_sort_contains(a + b, flash_addr_gt(), r);
    let k = choose|k: int| 0 <= k < (a + b).len() && (a + b)[k] == r;
    if k < a.len() {
        assert(a[k] == r);
        assert(a.contains(r));
        lemma_filter_contains(s, is_standalone(), r);
    }
    assert(b[k - a.len()] == r);
    assert(b.contains(r));
    lemma_grouped_contains(s, split, ps, r);
    let i = choose|i: int| 0 <= i < ps.len() && #[trigger] group_output(split, ps[i], spec_group(s, ps[i])).contains(r);
    let p = ps[i];
    let g = spec_group(s, p);
    let members = filter_seq(s, in_group(p));
    if !(contiguous(g) && !split_forced(split, p)) {
        assert(g.contains(r));
        lemma_insertion_sort_contains(members, addr_gt(), r);
        lemma_filter_contains(s, in_group(p), r);
    }
    assert(contiguous(g) && !split_forced(split, p));
    let out = group_output(split, p, g);
    assert(out == seq![merged(p, g)]);
    assert(r == merged(p, g));
    assert(r.name == p);
    assert(in_group(p)(x));
    lemma_filter_contains(s, in_group(p), x);
    lemma_insertion_sort_keeps(members, addr_gt(), x);
    let j = choose|j: int| 0 <= j < g.len() && g[j] == x;
    assert(group_defined(split, ps[i], spec_group(s, ps[i])));
    assert(sum_sizes(g) <= u32::MAX);
    lemma_contiguous_members(g, j);
    lemma_sum_sizes_prefix(g, j + 1, g.len() as int);
    assert(g.take(g.len() as int) =~= g);
}

} // verus!
