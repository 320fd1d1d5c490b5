//! Memory regions as the generator writes them: access and kind texts, the primary flash, the
//! regions of one memory variant and the lines of a regions file.
use vstd::prelude::*;

use crate::fmt::{push_decimal, push_hex8_lower, push_str, spec_decimal, spec_hex8_lower, string_from_chars};
use crate::generator::data::{pair_views, Chip, MemoryOption, MemoryOptionView};
use crate::mem_layout::{
    copy_memory_region, region_views, str_eq, Access, MemoryRegion, MemoryRegionKind, MemoryRegionView,
};
use crate::order::filter_seq;
use crate::search::{find_first, is_first_match, lemma_find_first_is, lemma_find_first_none};
use crate::text::{spec_starts_with, starts_with};

verus! {

/// The access text of a region: `r`, `w` and `x`, each replaced by `-` when the right is
/// missing; `rwx` when the region states no access.
pub open spec fn spec_access_str(access: Option<Access>) -> Seq<char> {
    match access {
        Some(a) => seq![
            if a.read { 'r' } else { '-' },
            if a.write { 'w' } else { '-' },
            if a.execute { 'x' } else { '-' },
        ],
        None => seq!['r', 'w', 'x'],
    }
}

/// The access text of a region.
pub fn access_str(access: Option<&Access>) -> (r: String)
    ensures
        r@ == spec_access_str(match access {
            Some(a) => Some(*a),
            None => None,
        }),
{
    let mut out: Vec<char> = Vec::new();
    match access {
        Some(a) => {
            out.push(if a.read { 'r' } else { '-' });
            out.push(if a.write { 'w' } else { '-' });
            out.push(if a.execute { 'x' } else { '-' });
        },
        None => {
            out.push('r');
            out.push('w');
            out.push('x');
        },
    }
    assert(out@ =~= spec_access_str(match access {
        Some(a) => Some(*a),
        None => None,
    }));
    string_from_chars(&out)
}

/// The kind text of a region.
pub open spec fn spec_kind_str(kind: MemoryRegionKind) -> Seq<char> {
    match kind {
        MemoryRegionKind::Flash => "flash"@,
        MemoryRegionKind::Ram => "ram"@,
    }
}

/// The kind text of a region.
pub fn kind_str(kind: &MemoryRegionKind) -> (r: &'static str)
    ensures
        r@ == spec_kind_str(*kind),
{
    match kind {
        MemoryRegionKind::Flash => "flash",
        MemoryRegionKind::Ram => "ram",
    }
}

/// A region of the primary user flash: flash named `USR_...`.
pub open spec fn is_primary_flash(r: MemoryRegion) -> bool {
    r.kind == MemoryRegionKind::Flash && spec_starts_with(r.name@, "USR_"@)
}

/// Predicate form of [`is_primary_flash`].
pub open spec fn primary_flash() -> spec_fn(MemoryRegion) -> bool {
    |r: MemoryRegion| is_primary_flash(r)
}

/// The regions of the primary user flash, in order.
pub fn primary_flash_regions(chip: &Chip) -> (r: Vec<&MemoryRegion>)
    ensures
        r@.map_values(|x: &MemoryRegion| *x) == filter_seq(chip.memory@, primary_flash()),
{
    let mut out: Vec<&MemoryRegion> = Vec::new();
    let mut i: usize = 0;
    while i < chip.memory.len()
        invariant
            i <= chip.memory@.len(),
            out@.map_values(|x: &MemoryRegion| *x) == filter_seq(chip.memory@.take(i as int), primary_flash()),
        decreases chip.memory@.len() - i,
    {
        let r = &chip.memory[i];
        proof {
            crate::order::lemma_filter_push(chip.memory@, i as int, primary_flash());
        }
        let ghost prev = out@;
        if r.kind == MemoryRegionKind::Flash && starts_with(r.name.as_str(), "USR_") {
            out.push(r);
            assert(out@.map_values(|x: &MemoryRegion| *x) =~= prev.map_values(|x: &MemoryRegion| *x).push(*r));
        }
        i += 1;
    }
    assert(chip.memory@.take(chip.memory@.len() as int) =~= chip.memory@);
    out
}

/// The write size of a flash region: the page size of its first fast programming mode.
pub fn flash_write_size(r: &MemoryRegion) -> (s: Option<u32>)
    ensures
        match find_first(r.modes@, crate::mem_layout::mode_is_fast()) {
            Some(i) => s == Some(r.modes@[i]->Fast_page_size),
            None => s is None,
        },
{
    r.page_program_size()
}

/// Predicate: the region view carries exactly this name.
pub open spec fn view_named(name: Seq<char>) -> spec_fn(MemoryRegionView) -> bool {
    |r: MemoryRegionView| r.name == name
}

fn find_region(mem: &Vec<MemoryRegion>, name: &str) -> (r: Option<usize>)
    ensures
        match r {
            Some(i) => i < mem@.len() && find_first(region_views(mem@), view_named(name@)) == Some(i as int),
            None => find_first(region_views(mem@), view_named(name@)) is None,
        },
{
    let ghost v = region_views(mem@);
    let mut i: usize = 0;
    while i < mem.len()
        invariant
            v == region_views(mem@),
            i <= mem@.len(),
            forall|j: int| 0 <= j < i ==> !view_named(name@)(#[trigger] v[j]),
        decreases mem@.len() - i,
    {
        if str_eq(mem[i].name.as_str(), name) {
            proof {
                lemma_find_first_is(v, view_named(name@), i as int);
            }
            return Some(i);
        }
        i += 1;
    }
    proof {
        lemma_find_first_none(v, view_named(name@));
    }
    None
}

/// The regions with each listed size given to the first region of its name (names that match no
/// region are passed over).
pub open spec fn with_sizes(mem: Seq<MemoryRegionView>, sizes: Seq<(Seq<char>, u32)>) -> Seq<MemoryRegionView>
    decreases sizes.len(),
{
    if sizes.len() == 0 {
        mem
    } else {
        let m = match find_first(mem, view_named(sizes[0].0)) {
            Some(i) => mem.update(i, MemoryRegionView { size: sizes[0].1, ..mem[i] }),
            None => mem,
        };
        with_sizes(m, sizes.drop_first())
    }
}

/// The regions with each listed address given to the first region of its name (names that match
/// no region are passed over).
pub open spec fn with_addresses(mem: Seq<MemoryRegionView>, addresses: Seq<(Seq<char>, u32)>) -> Seq<MemoryRegionView>
    decreases addresses.len(),
{
    if addresses.len() == 0 {
        mem
    } else {
        let m = match find_first(mem, view_named(addresses[0].0)) {
            Some(i) => mem.update(i, MemoryRegionView { address: addresses[0].1, ..mem[i] }),
            None => mem,
        };
        with_addresses(m, addresses.drop_first())
    }
}

/// The regions of a chip in one memory variant: sizes first, then addresses.
pub open spec fn spec_memory_for_option(mem: Seq<MemoryRegionView>, opt: MemoryOptionView) -> Seq<MemoryRegionView> {
    with_addresses(with_sizes(mem, opt.region_sizes), opt.region_addresses)
}

/// The regions of a chip in the memory variant `opt`.
pub fn memory_for_option(chip: &Chip, opt: &MemoryOption) -> (r: Vec<MemoryRegion>)
    ensures
        region_views(r@) == spec_memory_for_option(region_views(chip.memory@), opt@),
{
    let mut memory: Vec<MemoryRegion> = Vec::new();
    let mut i: usize = 0;
    while i < chip.memory.len()
        invariant
            i <= chip.memory@.len(),
            region_views(memory@) == region_views(chip.memory@.take(i as int)),
        decreases chip.memory@.len() - i,
    {
        let ghost prev = memory@;
        let c = copy_memory_region(&chip.memory[i]);
        memory.push(c);
        i += 1;
        assert(chip.memory@.take(i as int) =~= chip.memory@.take(i - 1).push(chip.memory@[i - 1]));
        assert(region_views(memory@) =~= region_views(prev).push(chip.memory@[i - 1]@));
        assert(region_views(chip.memory@.take(i as int)) =~= region_views(chip.memory@.take(i - 1)).push(
            chip.memory@[i - 1]@,
        ));
    }
    assert(chip.memory@.take(chip.memory@.len() as int) =~= chip.memory@);
    let ghost sizes = pair_views(opt.region_sizes@);
    let mut j: usize = 0;
    assert(sizes.skip(0) =~= sizes);
    while j < opt.region_sizes.len()
        invariant
            sizes == pair_views(opt.region_sizes@),
            j <= sizes.len(),
            with_sizes(region_views(memory@), sizes.skip(j as int)) == with_sizes(region_views(chip.memory@), sizes),
        decreases sizes.len() - j,
    {
        let ghost rest = sizes.skip(j as int);
        assert(rest[0] == (opt.region_sizes@[j as int].0@, opt.region_sizes@[j as int].1));
        assert(rest.drop_first() =~= sizes.skip(j + 1));
        let ghost prev = region_views(memory@);
        match find_region(&memory, opt.region_sizes[j].0.as_str()) {
            Some(k) => {
                memory[k].size = opt.region_sizes[j].1;
                assert(region_views(memory@) =~= prev.update(k as int, MemoryRegionView { size: rest[0].1, ..prev[k as int] }));
            },
            None => {},
        }
        j += 1;
    }
    assert(sizes.skip(j as int) =~= Seq::<(Seq<char>, u32)>::empty());
    let ghost mid = region_views(memory@);
    let ghost addresses = pair_views(opt.region_addresses@);
    let mut j: usize = 0;
    assert(addresses.skip(0) =~= addresses);
    while j < opt.region_addresses.len()
        invariant
            addresses == pair_views(opt.region_addresses@),
            j <= addresses.len(),
            with_addresses(region_views(memory@), addresses.skip(j as int)) == with_addresses(mid, addresses),
        decreases addresses.len() - j,
    {
        let ghost rest = addresses.skip(j as int);
        assert(rest[0] == (opt.region_addresses@[j as int].0@, opt.region_addresses@[j as int].1));
        assert(rest.drop_first() =~= addresses.skip(j + 1));
        let ghost prev = region_views(memory@);
        match find_region(&memory, opt.region_addresses[j].0.as_str()) {
            Some(k) => {
                memory[k].address = opt.region_addresses[j].1;
                assert(region_views(memory@) =~= prev.update(k as int, MemoryRegionView { address: rest[0].1, ..prev[k as int] }));
            },
            None => {},
        }
        j += 1;
    }
    assert(addresses.skip(j as int) =~= Seq::<(Seq<char>, u32)>::empty());
    memory
}

/// One line of a regions file: name, `0x` and eight lower-case hexadecimal digits of the
/// address, decimal size, access text and kind text, separated by spaces.
pub open spec fn regions_line(r: MemoryRegionView) -> Seq<char> {
    r.name + " 0x"@ + spec_hex8_lower(r.address) + " "@ + spec_decimal(r.size as nat) + " "@
        + spec_access_str(r.access) + " "@ + spec_kind_str(r.kind) + seq!['\n']
}

/// A regions file: one line per region, in order.
pub open spec fn spec_regions_text(rs: Seq<MemoryRegionView>) -> Seq<char>
    decreases rs.len(),
{
    if rs.len() == 0 {
        Seq::empty()
    } else {
        spec_regions_text(rs.drop_last()) + regions_line(rs.last())
    }
}

/// The text of a regions file for `memory`.
pub fn regions_text(memory: &[MemoryRegion]) -> (r: String)
    ensures
        r@ == spec_regions_text(region_views(memory@)),
{
    let ghost v = region_views(memory@);
    let mut out: Vec<char> = Vec::new();
    let mut i: usize = 0;
    while i < memory.len()
        invariant
            v == region_views(memory@),
            i <= memory@.len(),
            out@ == spec_regions_text(v.take(i as int)),
        decreases memory@.len() - i,
    {
        let r = &memory[i];
        let ghost before = out@;
        push_str(&mut out, r.name.as_str());
        push_str(&mut out, " 0x");
        push_hex8_lower(&mut out, r.address);
        push_str(&mut out, " ");
        push_decimal(&mut out, r.size as u64);
        push_str(&mut out, " ");
        let a = access_str(r.access.as_ref());
        push_str(&mut out, a.as_str());
        push_str(&mut out, " ");
        push_str(&mut out, kind_str(&r.kind));
        out.push('\n');
        assert(out@ =~= before + regions_line(v[i as int]));
        i += 1;
        assert(v.take(i as int).drop_last() =~= v.take(i - 1));
    }
    assert(v.take(memory@.len() as int) =~= v);
    string_from_chars(&out)
}

} // verus!
