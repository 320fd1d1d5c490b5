//! Resolving the memory of a chip description: regions from an include chain, size overrides and
//! the code/RAM split of chips whose SRAM can hold code.
use vstd::prelude::*;

use crate::chip::{memory_views, string_views, Chip, Memory, MemoryView, MemoryRamCodeConfig, MemoryRamCodeOption};
use crate::chip::memory::{Kind, Mode};
use crate::chip::nv_struct::{default_views, nv_struct_views, NvStruct};
use crate::fmt::{push_joined, push_str, push_debug_quoted, push_decimal, spec_debug_quote, spec_decimal, spec_join, string_from_chars};
use crate::mem_layout::str_eq;
use crate::search::{is_first_match, find_first, lemma_find_first_is, lemma_find_first_none};

verus! {

// ---------------------------------------------------------------------------------------------
// Error texts

/// Sizes given both per region and by a code/RAM split.
pub open spec fn msg_exclusive(chip: Seq<char>) -> Seq<char> {
    "chip "@ + spec_debug_quote(chip)
        + ": memory_sizes and memory_ram_code_config are mutually exclusive (memory_ram_code_config already determines all region sizes)"@
}

/// An included region whose name the chip already has.
pub open spec fn msg_include_collision(region: Seq<char>, chip: Seq<char>, inc_path: Seq<char>) -> Seq<char> {
    "memory region "@ + spec_debug_quote(region) + " on chip "@ + spec_debug_quote(chip)
        + " collides with a region from "@ + spec_debug_quote(inc_path)
        + " (include_memory appends; sizes go through memory_sizes or memory_ram_code_config)"@
}

/// A size override for a region that does not exist.
pub open spec fn msg_unknown_sized(region: Seq<char>, chip: Seq<char>) -> Seq<char> {
    "memory_sizes references unknown region "@ + spec_debug_quote(region) + " for chip "@
        + spec_debug_quote(chip)
}

/// A default split that is not among the splits.
pub open spec fn msg_default_missing(default: Seq<char>, chip: Seq<char>) -> Seq<char> {
    "memory_ram_code_config.default "@ + spec_debug_quote(default) + " not in configs for chip "@
        + spec_debug_quote(chip)
}

/// A code/RAM split without a `USR_1` region.
pub open spec fn msg_split_without_usr1(chip: Seq<char>) -> Seq<char> {
    "memory_ram_code_config requires a USR_1 region for chip "@ + spec_debug_quote(chip)
}

/// A `USR_1` region without an address, where a split must place `USR_2` after it.
pub open spec fn msg_usr1_without_address(chip: Seq<char>) -> Seq<char> {
    "USR_1 region for chip "@ + spec_debug_quote(chip)
        + " has no address (memory_ram_code_config needs it to place USR_2)"@
}

/// A code/RAM split without a `RAM` region.
pub open spec fn msg_split_without_ram(chip: Seq<char>) -> Seq<char> {
    "memory_ram_code_config requires a RAM region for chip "@ + spec_debug_quote(chip)
}

/// A total flash size below the code size of the default split.
pub open spec fn msg_total_flash_too_small(total: u32, code: u32, chip: Seq<char>) -> Seq<char> {
    "memory_ram_code_config: total_flash ("@ + spec_decimal(total as nat) + ") < default config code ("@
        + spec_decimal(code as nat) + ") for chip "@ + spec_debug_quote(chip)
}

/// A region that still lacks its kind, address or size.
pub open spec fn msg_incomplete(region: Seq<char>, chip: Seq<char>) -> Seq<char> {
    "memory region "@ + spec_debug_quote(region) + " on chip "@ + spec_debug_quote(chip)
        + " is missing kind/address/size after resolution"@
}

/// A chip of the include/size schema without the primary user flash.
pub open spec fn msg_missing_usr1(chip: Seq<char>) -> Seq<char> {
    "chip "@ + spec_debug_quote(chip)
        + " has no USR_1 memory region; USR_1 is the primary user flash and must be defined (additional banks use USR_2, USR_3, ...; system flash banks use SYS_1, SYS_2, ...)"@
}

/// A region of an include file whose name a parent include already declared.
pub open spec fn msg_chain_collision(region: Seq<char>, path: Seq<char>) -> Seq<char> {
    "memory region "@ + spec_debug_quote(region) + " from "@ + spec_debug_quote(path)
        + " collides with a region from a parent include (include_memory appends; each region must be declared exactly once in a chain)"@
}

fn text(out: &Vec<char>) -> (r: String)
    ensures
        r@ == out@,
{
    string_from_chars(out)
}

fn lit_quote_lit(a: &str, q: &str, b: &str) -> (r: String)
    ensures
        r@ == a@ + spec_debug_quote(q@) + b@,
{
    let mut out: Vec<char> = Vec::new();
    push_str(&mut out, a);
    push_debug_quoted(&mut out, q);
    push_str(&mut out, b);
    assert(out@ =~= a@ + spec_debug_quote(q@) + b@);
    text(&out)
}

fn lit_quote_lit_quote_lit(a: &str, q1: &str, b: &str, q2: &str, c: &str) -> (r: String)
    ensures
        r@ == a@ + spec_debug_quote(q1@) + b@ + spec_debug_quote(q2@) + c@,
{
    let mut out: Vec<char> = Vec::new();
    push_str(&mut out, a);
    push_debug_quoted(&mut out, q1);
    push_str(&mut out, b);
    push_debug_quoted(&mut out, q2);
    push_str(&mut out, c);
    assert(out@ =~= a@ + spec_debug_quote(q1@) + b@ + spec_debug_quote(q2@) + c@);
    text(&out)
}

/// The error text of a chip that sizes regions both ways.
pub fn exclusive_error(chip: &str) -> (r: String)
    ensures
        r@ == msg_exclusive(chip@),
{
    lit_quote_lit(
        "chip ",
        chip,
        ": memory_sizes and memory_ram_code_config are mutually exclusive (memory_ram_code_config already determines all region sizes)",
    )
}

/// The error text of an included region that collides with a region of the chip.
pub fn include_collision_error(region: &str, chip: &str, inc_path: &str) -> (r: String)
    ensures
        r@ == msg_include_collision(region@, chip@, inc_path@),
{
    let mut out: Vec<char> = Vec::new();
    push_str(&mut out, "memory region ");
    push_debug_quoted(&mut out, region);
    push_str(&mut out, " on chip ");
    push_debug_quoted(&mut out, chip);
    push_str(&mut out, " collides with a region from ");
    push_debug_quoted(&mut out, inc_path);
    push_str(
        &mut out,
        " (include_memory appends; sizes go through memory_sizes or memory_ram_code_config)",
    );
    assert(out@ =~= msg_include_collision(region@, chip@, inc_path@));
    text(&out)
}

/// The error text of a size override for an unknown region.
pub fn unknown_sized_error(region: &str, chip: &str) -> (r: String)
    ensures
        r@ == msg_unknown_sized(region@, chip@),
{
    let r = lit_quote_lit_quote_lit(
        "memory_sizes references unknown region ",
        region,
        " for chip ",
        chip,
        "",
    );
    proof {
        reveal_strlit("");
    }
    assert(r@ =~= msg_unknown_sized(region@, chip@));
    r
}

/// The error text of a default split that is not among the splits.
pub fn default_missing_error(default: &str, chip: &str) -> (r: String)
    ensures
        r@ == msg_default_missing(default@, chip@),
{
    let r = lit_quote_lit_quote_lit(
        "memory_ram_code_config.default ",
        default,
        " not in configs for chip ",
        chip,
        "",
    );
    proof {
        reveal_strlit("");
    }
    assert(r@ =~= msg_default_missing(default@, chip@));
    r
}

/// The error text of a split without a `USR_1` region.
pub fn split_without_usr1_error(chip: &str) -> (r: String)
    ensures
        r@ == msg_split_without_usr1(chip@),
{
    let r = lit_quote_lit("memory_ram_code_config requires a USR_1 region for chip ", chip, "");
    proof {
        reveal_strlit("");
    }
    assert(r@ =~= msg_split_without_usr1(chip@));
    r
}

/// The error text of a `USR_1` region without an address.
pub fn usr1_without_address_error(chip: &str) -> (r: String)
    ensures
        r@ == msg_usr1_without_address(chip@),
{
    lit_quote_lit(
        "USR_1 region for chip ",
        chip,
        " has no address (memory_ram_code_config needs it to place USR_2)",
    )
}

/// The error text of a split without a `RAM` region.
pub fn split_without_ram_error(chip: &str) -> (r: String)
    ensures
        r@ == msg_split_without_ram(chip@),
{
    let r = lit_quote_lit("memory_ram_code_config requires a RAM region for chip ", chip, "");
    proof {
        reveal_strlit("");
    }
    assert(r@ =~= msg_split_without_ram(chip@));
    r
}

/// The error text of a total flash size below the default code size.
pub fn total_flash_too_small_error(total: u32, code: u32, chip: &str) -> (r: String)
    ensures
        r@ == msg_total_flash_too_small(total, code, chip@),
{
    let mut out: Vec<char> = Vec::new();
    push_str(&mut out, "memory_ram_code_config: total_flash (");
    push_decimal(&mut out, total as u64);
    push_str(&mut out, ") < default config code (");
    push_decimal(&mut out, code as u64);
    push_str(&mut out, ") for chip ");
    push_debug_quoted(&mut out, chip);
    assert(out@ =~= msg_total_flash_too_small(total, code, chip@));
    text(&out)
}

/// The error text of a region that lacks its kind, address or size.
pub fn incomplete_error(region: &str, chip: &str) -> (r: String)
    ensures
        r@ == msg_incomplete(region@, chip@),
{
    lit_quote_lit_quote_lit(
        "memory region ",
        region,
        " on chip ",
        chip,
        " is missing kind/address/size after resolution",
    )
}

/// The error text of a chip without its primary user flash.
pub fn missing_usr1_error(chip: &str) -> (r: String)
    ensures
        r@ == msg_missing_usr1(chip@),
{
    lit_quote_lit(
        "chip ",
        chip,
        " has no USR_1 memory region; USR_1 is the primary user flash and must be defined (additional banks use USR_2, USR_3, ...; system flash banks use SYS_1, SYS_2, ...)",
    )
}

/// The error text of a region that an include chain declares twice.
pub fn chain_collision_error(region: &str, path: &str) -> (r: String)
    ensures
        r@ == msg_chain_collision(region@, path@),
{
    lit_quote_lit_quote_lit(
        "memory region ",
        region,
        " from ",
        path,
        " collides with a region from a parent include (include_memory appends; each region must be declared exactly once in a chain)",
    )
}


// ---------------------------------------------------------------------------------------------
// Lookups

/// Predicate: the region carries exactly this name.
pub open spec fn memory_named(name: Seq<char>) -> spec_fn(MemoryView) -> bool {
    |m: MemoryView| m.name == name
}

/// Some region carries this name.
pub open spec fn has_memory(mem: Seq<MemoryView>, name: Seq<char>) -> bool {
    find_first(mem, memory_named(name)) is Some
}

/// Predicate: the split carries exactly this name.
pub open spec fn option_named(name: Seq<char>) -> spec_fn(MemoryRamCodeOption) -> bool {
    |o: MemoryRamCodeOption| o.name@ == name
}

/// The position of the first region named `name`.
pub fn find_memory(mem: &Vec<Memory>, name: &str) -> (r: Option<usize>)
    ensures
        match r {
            Some(i) => i < mem@.len() && find_first(memory_views(mem@), memory_named(name@)) == Some(i as int),
            None => find_first(memory_views(mem@), memory_named(name@)) is None,
        },
{
    let ghost v = memory_views(mem@);
    let mut i: usize = 0;
    while i < mem.len()
        invariant
            v == memory_views(mem@),
            i <= mem@.len(),
            forall|j: int| 0 <= j < i ==> !memory_named(name@)(#[trigger] v[j]),
        decreases mem@.len() - i,
    {
        if str_eq(mem[i].name.as_str(), name) {
            proof {
                lemma_find_first_is(v, memory_named(name@), i as int);
            }
            return Some(i);
        }
        i += 1;
    }
    proof {
        lemma_find_first_none(v, memory_named(name@));
    }
    None
}

/// The position of the first split named `name`.
fn find_option(configs: &Vec<MemoryRamCodeOption>, name: &str) -> (r: Option<usize>)
    ensures
        match r {
            Some(i) => i < configs@.len() && find_first(configs@, option_named(name@)) == Some(i as int),
            None => find_first(configs@, option_named(name@)) is None,
        },
{
    let mut i: usize = 0;
    while i < configs.len()
        invariant
            i <= configs@.len(),
            forall|j: int| 0 <= j < i ==> !option_named(name@)(#[trigger] configs@[j]),
        decreases configs@.len() - i,
    {
        if str_eq(configs[i].name.as_str(), name) {
            proof {
                lemma_find_first_is(configs@, option_named(name@), i as int);
            }
            return Some(i);
        }
        i += 1;
    }
    proof {
        lemma_find_first_none(configs@, option_named(name@));
    }
    None
}

// ---------------------------------------------------------------------------------------------
// Appending regions

/// Appending `inc` to `base` in order, stopping at the first region whose name is already
/// there: the regions reached, and the name that stopped it.
pub open spec fn merge_regions(base: Seq<MemoryView>, inc: Seq<MemoryView>) -> (Seq<MemoryView>, Option<Seq<char>>)
    decreases inc.len(),
{
    if inc.len() == 0 {
        (base, None)
    } else if has_memory(base, inc[0].name) {
        (base, Some(inc[0].name))
    } else {
        merge_regions(base.push(inc[0]), inc.drop_first())
    }
}

/// Appends `regions` to `mem` in order; stops at the first region whose name `mem` already has,
/// and returns that name.
pub fn append_regions(mem: &mut Vec<Memory>, regions: Vec<Memory>) -> (r: Option<String>)
    ensures
        memory_views(final(mem)@) == merge_regions(memory_views(old(mem)@), memory_views(regions@)).0,
        match merge_regions(memory_views(old(mem)@), memory_views(regions@)).1 {
            Some(n) => r matches Some(s) && s@ == n,
            None => r is None,
        },
{
    let mut rest = regions;
    while rest.len() > 0
        invariant
            merge_regions(memory_views(mem@), memory_views(rest@))
                == merge_regions(memory_views(old(mem)@), memory_views(regions@)),
        decreases rest@.len(),
    {
        let ghost before = rest@;
        let region = rest.remove(0);
        assert(memory_views(rest@) =~= memory_views(before).drop_first());
        if find_memory(mem, region.name.as_str()).is_some() {
            return Some(region.name);
        }
        let ghost prev = mem@;
        mem.push(region);
        assert(memory_views(mem@) =~= memory_views(prev).push(region@));
    }
    None
}

// ---------------------------------------------------------------------------------------------
// Size overrides

/// A region with its size set.
pub open spec fn with_size(m: MemoryView, size: u32) -> MemoryView {
    MemoryView { size: Some(size), ..m }
}

/// Applying the size overrides in order: each sets the size of the first region of its name.
/// Stops at the first override whose region does not exist, and names it.
pub open spec fn apply_sizes(mem: Seq<MemoryView>, sizes: Seq<(String, u32)>) -> (Seq<MemoryView>, Option<Seq<char>>)
    decreases sizes.len(),
{
    if sizes.len() == 0 {
        (mem, None)
    } else {
        match find_first(mem, memory_named(sizes[0].0@)) {
            None => (mem, Some(sizes[0].0@)),
            Some(i) => apply_sizes(mem.update(i, with_size(mem[i], sizes[0].1)), sizes.drop_first()),
        }
    }
}

/// Sets the size of the region of each override; returns the name of the first override
/// whose region does not exist.
fn apply_size_overrides(mem: &mut Vec<Memory>, sizes: &Vec<(String, u32)>) -> (r: Option<String>)
    ensures
        memory_views(final(mem)@) == apply_sizes(memory_views(old(mem)@), sizes@).0,
        match apply_sizes(memory_views(old(mem)@), sizes@).1 {
            Some(n) => r matches Some(s) && s@ == n,
            None => r is None,
        },
{
    let mut j: usize = 0;
    assert(sizes@.skip(0) =~= sizes@);
    while j < sizes.len()
        invariant
            j <= sizes@.len(),
            apply_sizes(memory_views(mem@), sizes@.skip(j as int))
                == apply_sizes(memory_views(old(mem)@), sizes@),
        decreases sizes@.len() - j,
    {
        let ghost rest = sizes@.skip(j as int);
        assert(rest[0] == sizes@[j as int]);
        assert(rest.drop_first() =~= sizes@.skip(j + 1));
        match find_memory(mem, sizes[j].0.as_str()) {
            None => {
                return Some(sizes[j].0.clone());
            },
            Some(i) => {
                let ghost prev = memory_views(mem@);
                assert(find_first(prev, memory_named(rest[0].0@)) == Some(i as int));
                mem[i].size = Some(sizes[j].1);
                assert(memory_views(mem@) =~= prev.update(i as int, with_size(prev[i as int], sizes@[j as int].1)));
                assert(apply_sizes(prev, rest) == apply_sizes(memory_views(mem@), rest.drop_first()));
            },
        }
        j += 1;
    }
    assert(sizes@.skip(j as int) =~= Seq::<(String, u32)>::empty());
    None
}


// ---------------------------------------------------------------------------------------------
// Copies

fn copy_modes(v: &Vec<Mode>) -> (r: Vec<Mode>)
    ensures
        r@ == v@,
{
    let mut r: Vec<Mode> = Vec::new();
    let mut i: usize = 0;
    while i < v.len()
        invariant
            i <= v@.len(),
            r@ == v@.take(i as int),
        decreases v@.len() - i,
    {
        r.push(v[i]);
        i += 1;
        assert(v@.take(i as int) =~= v@.take(i - 1).push(v@[i - 1]));
    }
    assert(v@.take(v@.len() as int) =~= v@);
    r
}

fn copy_strings(v: &Vec<String>) -> (r: Vec<String>)
    ensures
        string_views(r@) == string_views(v@),
{
    let mut r: Vec<String> = Vec::new();
    let mut i: usize = 0;
    while i < v.len()
        invariant
            i <= v@.len(),
            string_views(r@) == string_views(v@.take(i as int)),
        decreases v@.len() - i,
    {
        let ghost prev = r@;
        r.push(v[i].clone());
        i += 1;
        assert(v@.take(i as int) =~= v@.take(i - 1).push(v@[i - 1]));
        assert(string_views(r@) =~= string_views(prev).push(v@[i - 1]@));
        assert(string_views(v@.take(i as int)) =~= string_views(v@.take(i - 1)).push(v@[i - 1]@));
    }
    assert(v@.take(v@.len() as int) =~= v@);
    r
}

fn copy_cores(c: &Option<Vec<String>>) -> (r: Option<Vec<String>>)
    ensures
        match (r, *c) {
            (Some(a), Some(b)) => string_views(a@) == string_views(b@),
            (None, None) => true,
            _ => false,
        },
{
    match c {
        Some(v) => Some(copy_strings(v)),
        None => None,
    }
}

fn copy_nv_struct(s: &NvStruct) -> (r: NvStruct)
    ensures
        r@ == s@,
{
    let mut defaults: Vec<(String, u32)> = Vec::new();
    let mut i: usize = 0;
    while i < s.defaults.len()
        invariant
            i <= s.defaults@.len(),
            default_views(defaults@) == default_views(s.defaults@.take(i as int)),
        decreases s.defaults@.len() - i,
    {
        let ghost prev = defaults@;
        let d = (s.defaults[i].0.clone(), s.defaults[i].1);
        defaults.push(d);
        i += 1;
        let ghost v = s.defaults@;
        assert(v.take(i as int) =~= v.take(i - 1).push(v[i - 1]));
        assert(default_views(defaults@) =~= default_views(prev).push((v[i - 1].0@, v[i - 1].1)));
        assert(default_views(v.take(i as int)) =~= default_views(v.take(i - 1)).push((v[i - 1].0@, v[i - 1].1)));
    }
    assert(s.defaults@.take(s.defaults@.len() as int) =~= s.defaults@);
    let r = NvStruct {
        name: s.name.clone(),
        offset: s.offset,
        kind: s.kind.clone(),
        version: s.version.clone(),
        block: s.block.clone(),
        defaults,
    };
    assert(r@.defaults =~= s@.defaults);
    r
}

/// A copy of a region.
pub fn copy_memory(m: &Memory) -> (r: Memory)
    ensures
        r@ == m@,
{
    let mut structs: Vec<NvStruct> = Vec::new();
    let mut i: usize = 0;
    while i < m.structs.len()
        invariant
            i <= m.structs@.len(),
            nv_struct_views(structs@) == nv_struct_views(m.structs@.take(i as int)),
        decreases m.structs@.len() - i,
    {
        let ghost prev = structs@;
        let c = copy_nv_struct(&m.structs[i]);
        structs.push(c);
        i += 1;
        let ghost v = m.structs@;
        assert(v.take(i as int) =~= v.take(i - 1).push(v[i - 1]));
        assert(nv_struct_views(structs@) =~= nv_struct_views(prev).push(v[i - 1]@));
        assert(nv_struct_views(v.take(i as int)) =~= nv_struct_views(v.take(i - 1)).push(v[i - 1]@));
    }
    assert(m.structs@.take(m.structs@.len() as int) =~= m.structs@);
    let r = Memory {
        name: m.name.clone(),
        kind: m.kind,
        address: m.address,
        size: m.size,
        modes: copy_modes(&m.modes),
        access: m.access,
        cores: copy_cores(&m.cores),
        structs,
    };
    assert(r@.structs =~= m@.structs);
    r
}

/// A copy of a sequence of regions.
pub fn copy_memories(v: &Vec<Memory>) -> (r: Vec<Memory>)
    ensures
        memory_views(r@) == memory_views(v@),
{
    let mut r: Vec<Memory> = Vec::new();
    let mut i: usize = 0;
    while i < v.len()
        invariant
            i <= v@.len(),
            memory_views(r@) == memory_views(v@.take(i as int)),
        decreases v@.len() - i,
    {
        let ghost prev = r@;
        let c = copy_memory(&v[i]);
        r.push(c);
        i += 1;
        assert(v@.take(i as int) =~= v@.take(i - 1).push(v@[i - 1]));
        assert(memory_views(r@) =~= memory_views(prev).push(v@[i - 1]@));
        assert(memory_views(v@.take(i as int)) =~= memory_views(v@.take(i - 1)).push(v@[i - 1]@));
    }
    assert(v@.take(v@.len() as int) =~= v@);
    r
}


// ---------------------------------------------------------------------------------------------
// The code/RAM split

/// The region `USR_2` that a split places behind `USR_1`: flash, at `address`, of `size`
/// bytes, with the modes, access and cores of `USR_1` and no structures.
pub open spec fn usr2_region(usr1: MemoryView, address: u32, size: u32) -> MemoryView {
    MemoryView {
        name: "USR_2"@,
        kind: Some(Kind::Flash),
        address: Some(address),
        size: Some(size),
        modes: usr1.modes,
        access: usr1.access,
        cores: usr1.cores,
        structs: Seq::empty(),
    }
}

/// Applying the default split of `config`: `USR_1` gets its code size, `RAM` its RAM size, and
/// `USR_2` (unless present) the rest of the flash, right behind the code. Stops at the first
/// missing piece with its error text.
pub open spec fn apply_split(mem: Seq<MemoryView>, config: MemoryRamCodeConfig, chip: Seq<char>) -> (Seq<MemoryView>, Option<Seq<char>>) {
    match find_first(config.configs@, option_named(config.default@)) {
        None => (mem, Some(msg_default_missing(config.default@, chip))),
        Some(oi) => {
            let opt = config.configs@[oi];
            match find_first(mem, memory_named("USR_1"@)) {
                None => (mem, Some(msg_split_without_usr1(chip))),
                Some(ui) => {
                    let mem1 = mem.update(ui, with_size(mem[ui], opt.code));
                    match mem[ui].address {
                        None => (mem1, Some(msg_usr1_without_address(chip))),
                        Some(addr) => match find_first(mem1, memory_named("RAM"@)) {
                            None => (mem1, Some(msg_split_without_ram(chip))),
                            Some(ri) => {
                                let mem2 = mem1.update(ri, with_size(mem1[ri], opt.ram));
                                if config.total_flash < opt.code {
                                    (mem2, Some(msg_total_flash_too_small(config.total_flash, opt.code, chip)))
                                } else if has_memory(mem2, "USR_2"@) {
                                    (mem2, None)
                                } else {
                                    (
                                        mem2.push(
                                            usr2_region(
                                                mem1[ui],
                                                (addr + opt.code) as u32,
                                                (config.total_flash - opt.code) as u32,
                                            ),
                                        ),
                                        None,
                                    )
                                }
                            },
                        },
                    }
                },
            }
        },
    }
}

/// The address of `USR_2` that the default split of `config` computes fits in 32 bits,
/// wherever the split gets that far.
pub open spec fn split_fits(mem: Seq<MemoryView>, config: MemoryRamCodeConfig) -> bool {
    match find_first(config.configs@, option_named(config.default@)) {
        None => true,
        Some(oi) => match find_first(mem, memory_named("USR_1"@)) {
            None => true,
            Some(ui) => match mem[ui].address {
                None => true,
                Some(addr) => {
                    let code = config.configs@[oi].code;
                    ||| !has_memory(mem, "RAM"@)
                    ||| config.total_flash < code
                    ||| has_memory(mem, "USR_2"@)
                    ||| addr + code <= u32::MAX
                },
            },
        },
    }
}

fn apply_split_exec(mem: &mut Vec<Memory>, config: &MemoryRamCodeConfig, chip: &str) -> (r: Option<String>)
    requires
        split_fits(memory_views(old(mem)@), *config),
    ensures
        memory_views(final(mem)@) == apply_split(memory_views(old(mem)@), *config, chip@).0,
        match apply_split(memory_views(old(mem)@), *config, chip@).1 {
            Some(e) => r matches Some(s) && s@ == e,
            None => r is None,
        },
{
    let ghost m0 = memory_views(mem@);
    let oi = match find_option(&config.configs, config.default.as_str()) {
        None => {
            return Some(default_missing_error(config.default.as_str(), chip));
        },
        Some(oi) => oi,
    };
    let code = config.configs[oi].code;
    let ram = config.configs[oi].ram;
    let ui = match find_memory(mem, "USR_1") {
        None => {
            return Some(split_without_usr1_error(chip));
        },
        Some(ui) => ui,
    };
    mem[ui].size = Some(code);
    let ghost m1 = memory_views(mem@);
    assert(m1 =~= m0.update(ui as int, with_size(m0[ui as int], code)));
    let addr = match mem[ui].address {
        None => {
            return Some(usr1_without_address_error(chip));
        },
        Some(a) => a,
    };
    let modes = copy_modes(&mem[ui].modes);
    let access = mem[ui].access;
    let cores = copy_cores(&mem[ui].cores);
    let ri = match find_memory(mem, "RAM") {
        None => {
            return Some(split_without_ram_error(chip));
        },
        Some(ri) => ri,
    };
    mem[ri].size = Some(ram);
    let ghost m2 = memory_views(mem@);
    assert(m2 =~= m1.update(ri as int, with_size(m1[ri as int], ram)));
    if config.total_flash < code {
        return Some(total_flash_too_small_error(config.total_flash, code, chip));
    }
    let usr2_size = config.total_flash - code;
    proof {
        assert(find_first(m0, memory_named("RAM"@)) is Some) by {
            assert(m0[ri as int].name == m1[ri as int].name);
            crate::search::lemma_find_first_some(m0, memory_named("RAM"@), ri as int);
        }
    }
    if find_memory(mem, "USR_2").is_none() {
        proof {
            assert(find_first(m0, memory_named("USR_2"@)) is None) by {
                if find_first(m0, memory_named("USR_2"@)) is Some {
                    let k = find_first(m0, memory_named("USR_2"@))->0;
                    assert(is_first_match(m0, memory_named("USR_2"@), k));
                    assert(m2[k].name == m0[k].name);
                    crate::search::lemma_find_first_some(m2, memory_named("USR_2"@), k);
                }
            }
        }
        let region = Memory {
            name: String::from_str("USR_2"),
            kind: Some(Kind::Flash),
            address: Some(addr + code),
            size: Some(usr2_size),
            modes,
            access,
            cores,
            structs: Vec::new(),
        };
        assert(region@.structs =~= Seq::<crate::chip::nv_struct::NvStructView>::empty());
        assert(region@.name =~= "USR_2"@);
        assert(region@ == usr2_region(m1[ui as int], (addr + code) as u32, usr2_size));
        mem.push(region);
        assert(memory_views(mem@) =~= m2.push(region@));
    }
    None
}

// ---------------------------------------------------------------------------------------------
// Resolution of a whole chip

/// A region that has its kind, address and size.
pub open spec fn complete(m: MemoryView) -> bool {
    m.kind is Some && m.address is Some && m.size is Some
}

/// Predicate: the region lacks its kind, address or size.
pub open spec fn incomplete() -> spec_fn(MemoryView) -> bool {
    |m: MemoryView| !complete(m)
}

/// The chip describes its memory through an include, size overrides or a split, and so must
/// name its primary user flash.
pub open spec fn uses_new_schema(chip: Chip) -> bool {
    chip.include_memory is Some || chip.memory_sizes@.len() > 0 || chip.memory_ram_code_config is Some
}

/// The regions after appending the included ones (when the chip names an include), with the
/// error that stopped it.
pub open spec fn resolve_included(chip: Chip, included: Result<Vec<Memory>, String>) -> (Seq<MemoryView>, Option<Seq<char>>) {
    match chip.include_memory {
        None => (memory_views(chip.memory@), None),
        Some(p) => match included {
            Err(e) => (memory_views(chip.memory@), Some(e@)),
            Ok(inc) => {
                let m = merge_regions(memory_views(chip.memory@), memory_views(inc@));
                match m.1 {
                    Some(n) => (m.0, Some(msg_include_collision(n, chip.name@, p@))),
                    None => (m.0, None),
                }
            },
        },
    }
}

/// The regions after the exclusivity check, the include and the size overrides, with the error
/// that stopped it.
pub open spec fn resolve_sized(chip: Chip, included: Result<Vec<Memory>, String>) -> (Seq<MemoryView>, Option<Seq<char>>) {
    if chip.memory_sizes@.len() > 0 && chip.memory_ram_code_config is Some {
        (memory_views(chip.memory@), Some(msg_exclusive(chip.name@)))
    } else {
        let s = resolve_included(chip, included);
        if s.1 is Some {
            s
        } else {
            let t = apply_sizes(s.0, chip.memory_sizes@);
            match t.1 {
                Some(n) => (t.0, Some(msg_unknown_sized(n, chip.name@))),
                None => (t.0, None),
            }
        }
    }
}

/// The regions of a chip after resolution, with the error that stopped it, if any: the
/// exclusivity check, the include, the size overrides, the split, then the checks that every
/// region is complete and that the primary user flash exists.
pub open spec fn spec_resolve(chip: Chip, included: Result<Vec<Memory>, String>) -> (Seq<MemoryView>, Option<Seq<char>>) {
    let s = resolve_sized(chip, included);
    if s.1 is Some {
        s
    } else {
        let t = match chip.memory_ram_code_config {
            None => s,
            Some(c) => apply_split(s.0, c, chip.name@),
        };
        if t.1 is Some {
            t
        } else {
            match find_first(t.0, incomplete()) {
                Some(i) => (t.0, Some(msg_incomplete(t.0[i].name, chip.name@))),
                None => if uses_new_schema(chip) && !has_memory(t.0, "USR_1"@) {
                    (t.0, Some(msg_missing_usr1(chip.name@)))
                } else {
                    (t.0, None)
                },
            }
        }
    }
}

/// Resolution never computes a `USR_2` address beyond 32 bits.
pub open spec fn resolve_fits(chip: Chip, included: Result<Vec<Memory>, String>) -> bool {
    let s = resolve_sized(chip, included);
    s.1 is Some || match chip.memory_ram_code_config {
        None => true,
        Some(c) => split_fits(s.0, c),
    }
}

fn first_incomplete(mem: &Vec<Memory>) -> (r: Option<usize>)
    ensures
        match r {
            Some(i) => i < mem@.len() && find_first(memory_views(mem@), incomplete()) == Some(i as int),
            None => find_first(memory_views(mem@), incomplete()) is None,
        },
{
    let ghost v = memory_views(mem@);
    let mut i: usize = 0;
    while i < mem.len()
        invariant
            v == memory_views(mem@),
            i <= mem@.len(),
            forall|j: int| 0 <= j < i ==> !incomplete()(#[trigger] v[j]),
        decreases mem@.len() - i,
    {
        if mem[i].kind.is_none() || mem[i].address.is_none() || mem[i].size.is_none() {
            proof {
                lemma_find_first_is(v, incomplete(), i as int);
            }
            return Some(i);
        }
        i += 1;
    }
    proof {
        lemma_find_first_none(v, incomplete());
    }
    None
}

fn split_fits_exec(mem: &Vec<Memory>, config: &MemoryRamCodeConfig) -> (r: bool)
    ensures
        r == split_fits(memory_views(mem@), *config),
{
    let oi = match find_option(&config.configs, config.default.as_str()) {
        None => return true,
        Some(oi) => oi,
    };
    let ui = match find_memory(mem, "USR_1") {
        None => return true,
        Some(ui) => ui,
    };
    let addr = match mem[ui].address {
        None => return true,
        Some(a) => a,
    };
    let code = config.configs[oi].code;
    find_memory(mem, "RAM").is_none() || config.total_flash < code || find_memory(mem, "USR_2").is_some()
        || addr as u64 + code as u64 <= 0xffff_ffffu64
}

impl Chip {
    /// Whether resolving this chip's memory, with `included` as what its include chain gave,
    /// keeps the address of `USR_2` within 32 bits (see [`Chip::resolve_memory`]).
    pub fn resolve_fits(&self, included: &Result<Vec<Memory>, String>) -> (r: bool)
        ensures
            r == resolve_fits(*self, *included),
    {
        let config = match &self.memory_ram_code_config {
            None => return true,
            Some(c) => c,
        };
        if self.memory_sizes.len() > 0 {
            return true;
        }
        let mut mem = copy_memories(&self.memory);
        if self.include_memory.is_some() {
            match included {
                Err(_) => return true,
                Ok(regions) => {
                    let inc = copy_memories(regions);
                    if append_regions(&mut mem, inc).is_some() {
                        return true;
                    }
                },
            }
        }
        proof {
            assert(self.memory_sizes@ =~= Seq::<(String, u32)>::empty());
        }
        split_fits_exec(&mem, config)
    }

    /// Resolves the memory of the chip in place. `included` is what loading the chip's
    /// `include_memory` chain gave: its regions, or the error that stopped it (unused when the
    /// chip names no include).
    ///
    /// The include is taken out of the chip; the regions of the include are appended; the size
    /// overrides are applied; the default code/RAM split sets the sizes of `USR_1` and `RAM` and
    /// adds `USR_2`; then every region must have its kind, address and size, and a chip that
    /// uses any of these must have `USR_1`. The first failure ends resolution with its error
    /// text, and the regions stay as far as resolution got.
    pub fn resolve_memory(&mut self, included: Result<Vec<Memory>, String>) -> (r: Result<(), String>)
        requires
            resolve_fits(*old(self), included),
            crate::chip::keys_ascending(old(self).memory_sizes@),
        ensures
            memory_views(final(self).memory@) == spec_resolve(*old(self), included).0,
            match spec_resolve(*old(self), included).1 {
                Some(e) => r matches Err(t) && t@ == e,
                None => r is Ok,
            },
            final(self).include_memory is None,
            final(self).name == old(self).name,
            final(self).family == old(self).family,
            final(self).subfamily == old(self).subfamily,
            final(self).product_type == old(self).product_type,
            final(self).keywords == old(self).keywords,
            final(self).packages == old(self).packages,
            final(self).memory_sizes == old(self).memory_sizes,
            final(self).memory_ram_code_config == old(self).memory_ram_code_config,
            final(self).docs == old(self).docs,
            final(self).cores == old(self).cores,
    {
        let ghost chip0 = *self;
        let inc_path = self.include_memory.take();
        let uses_new = inc_path.is_some() || self.memory_sizes.len() > 0
            || self.memory_ram_code_config.is_some();
        if self.memory_sizes.len() > 0 && self.memory_ram_code_config.is_some() {
            return Err(exclusive_error(self.name.as_str()));
        }
        match inc_path {
            None => {},
            Some(p) => match included {
                Err(e) => {
                    return Err(e);
                },
                Ok(regions) => {
                    match append_regions(&mut self.memory, regions) {
                        Some(n) => {
                            return Err(include_collision_error(n.as_str(), self.name.as_str(), p.as_str()));
                        },
                        None => {},
                    }
                },
            },
        }
        match apply_size_overrides(&mut self.memory, &self.memory_sizes) {
            Some(n) => {
                return Err(unknown_sized_error(n.as_str(), self.name.as_str()));
            },
            None => {},
        }
        assert(memory_views(self.memory@) == resolve_sized(chip0, included).0);
        match &self.memory_ram_code_config {
            None => {},
            Some(config) => {
                match apply_split_exec(&mut self.memory, config, self.name.as_str()) {
                    Some(e) => {
                        return Err(e);
                    },
                    None => {},
                }
            },
        }
        match first_incomplete(&self.memory) {
            Some(i) => {
                return Err(incomplete_error(self.memory[i].name.as_str(), self.name.as_str()));
            },
            None => {},
        }
        if uses_new && find_memory(&self.memory, "USR_1").is_none() {
            return Err(missing_usr1_error(self.name.as_str()));
        }
        Ok(())
    }
}


// ---------------------------------------------------------------------------------------------
// Loading an include chain

/// The error text of an include chain that comes back to a file it is loading.
pub open spec fn msg_include_cycle(chain: Seq<Seq<char>>, path: Seq<char>) -> Seq<char> {
    "cycle in include_memory chain: "@ + spec_join(chain, " -> "@) + " -> "@ + path
}

/// Leaves the innermost file of an include chain once its regions are in: its key is popped, so
/// a later include of the same file (a diamond, not a cycle) is accepted again.
pub fn leave_include(visited: &mut Vec<String>)
    requires
        old(visited)@.len() > 0,
    ensures
        final(visited)@ == old(visited)@.drop_last(),
{
    visited.pop();
}

/// Enters a file of an include chain. `visited` holds the keys of the files being loaded,
/// outermost first; `key` identifies the file and `shown` is how it is shown. A file that is
/// already being loaded closes a cycle: that is an error and `visited` stays as it was;
/// otherwise the key is pushed.
pub fn enter_include(visited: &mut Vec<String>, key: String, shown: &str) -> (r: Result<(), String>)
    ensures
        string_views(old(visited)@).contains(key@) ==> {
            &&& r matches Err(e) && e@ == msg_include_cycle(string_views(old(visited)@), shown@)
            &&& final(visited)@ == old(visited)@
        },
        !string_views(old(visited)@).contains(key@) ==> {
            &&& r is Ok
            &&& final(visited)@ == old(visited)@.push(key)
        },
{
    let ghost v = string_views(visited@);
    let mut i: usize = 0;
    while i < visited.len()
        invariant
            v == string_views(visited@),
            i <= visited@.len(),
            forall|j: int| 0 <= j < i ==> v[j] != key@,
        decreases visited@.len() - i,
    {
        if str_eq(visited[i].as_str(), key.as_str()) {
            assert(v[i as int] == key@);
            let mut out: Vec<char> = Vec::new();
            push_str(&mut out, "cycle in include_memory chain: ");
            push_joined(&mut out, visited, " -> ");
            push_str(&mut out, " -> ");
            push_str(&mut out, shown);
            assert(out@ =~= msg_include_cycle(v, shown@));
            return Err(text(&out));
        }
        i += 1;
    }
    assert(!v.contains(key@)) by {
        if v.contains(key@) {
            let j = choose|j: int| 0 <= j < v.len() && v[j] == key@;
            assert(v[j] != key@);
        }
    }
    visited.push(key);
    Ok(())
}

/// Appends the regions of one file of an include chain, shown as `shown`, to the regions of its
/// parents; a region whose name a parent already declared is an error, and the regions stay as
/// far as appending got.
pub fn append_family_regions(combined: &mut Vec<Memory>, family: Vec<Memory>, shown: &str) -> (r: Result<(), String>)
    ensures
        memory_views(final(combined)@) == merge_regions(memory_views(old(combined)@), memory_views(family@)).0,
        match merge_regions(memory_views(old(combined)@), memory_views(family@)).1 {
            Some(n) => r matches Err(e) && e@ == msg_chain_collision(n, shown@),
            None => r is Ok,
        },
{
    match append_regions(combined, family) {
        Some(n) => Err(chain_collision_error(n.as_str(), shown)),
        None => Ok(()),
    }
}


// ---------------------------------------------------------------------------------------------
// Laws

/// No two regions carry the same name.
pub open spec fn unique_names(s: Seq<MemoryView>) -> bool {
    forall|i: int, j: int| 0 <= i < j < s.len() ==> s[i].name != s[j].name
}

proof fn lemma_has_memory_iff(s: Seq<MemoryView>, n: Seq<char>)
    ensures
        has_memory(s, n) <==> exists|i: int| 0 <= i < s.len() && s[i].name == n,
{
    if exists|i: int| 0 <= i < s.len() && s[i].name == n {
        let i = choose|i: int| 0 <= i < s.len() && s[i].name == n;
        crate::search::lemma_find_first_some(s, memory_named(n), i);
    }
    if has_memory(s, n) {
        let k = find_first(s, memory_named(n))->0;
        assert(is_first_match(s, memory_named(n), k));
    }
}

/// Including appends: when no included region collides, the result is the chip's regions
/// followed by the included ones, in order, and names that were unique stay unique.
pub proof fn law_include_appends(base: Seq<MemoryView>, inc: Seq<MemoryView>)
    requires
        merge_regions(base, inc).1 is None,
    ensures
        merge_regions(base, inc).0 == base + inc,
        unique_names(base) ==> unique_names(merge_regions(base, inc).0),
    decreases inc.len(),
{
    if inc.len() == 0 {
        assert(base + inc =~= base);
    } else {
        lemma_has_memory_iff(base, inc[0].name);
        assert(!has_memory(base, inc[0].name));
        law_include_appends(base.push(inc[0]), inc.drop_first());
        assert(base.push(inc[0]) + inc.drop_first() =~= base + inc);
        if unique_names(base) {
            let b1 = base.push(inc[0]);
            assert forall|i: int, j: int| 0 <= i < j < b1.len() implies b1[i].name != b1[j].name by {
                if j == base.len() {
                    assert(b1[i] == base[i]);
                }
            }
        }
    }
}

/// A collision names a region that is both among the chip's regions or earlier included ones,
/// and among the included ones.
pub proof fn law_include_collision_names_a_duplicate(base: Seq<MemoryView>, inc: Seq<MemoryView>)
    requires
        merge_regions(base, inc).1 is Some,
    ensures
        exists|i: int| 0 <= i < inc.len() && inc[i].name == merge_regions(base, inc).1->0,
        exists|i: int| 0 <= i < merge_regions(base, inc).0.len() && merge_regions(base, inc).0[i].name == merge_regions(base, inc).1->0,
    decreases inc.len(),
{
    if has_memory(base, inc[0].name) {
        lemma_has_memory_iff(base, inc[0].name);
        assert(inc[0].name == merge_regions(base, inc).1->0);
        let i = choose|i: int| 0 <= i < base.len() && base[i].name == inc[0].name;
        assert(merge_regions(base, inc).0[i].name == inc[0].name);
    } else {
        assert(merge_regions(base, inc) == merge_regions(base.push(inc[0]), inc.drop_first()));
        law_include_collision_names_a_duplicate(base.push(inc[0]), inc.drop_first());
        let i = choose|i: int| 0 <= i < inc.drop_first().len() && inc.drop_first()[i].name == merge_regions(base, inc).1->0;
        assert(inc[i + 1] == inc.drop_first()[i]);
    }
}

/// After a successful resolution every region has its kind, address and size, and a chip
/// that describes its memory through an include, size overrides or a split has `USR_1`.
pub proof fn law_resolved_regions_complete(chip: Chip, included: Result<Vec<Memory>, String>)
    requires
        spec_resolve(chip, included).1 is None,
    ensures
        forall|i: int| 0 <= i < spec_resolve(chip, included).0.len() ==> complete(#[trigger] spec_resolve(chip, included).0[i]),
        uses_new_schema(chip) ==> exists|i: int| 0 <= i < spec_resolve(chip, included).0.len()
            && spec_resolve(chip, included).0[i].name == "USR_1"@,
{
    let m = spec_resolve(chip, included).0;
    assert forall|i: int| 0 <= i < m.len() implies complete(#[trigger] m[i]) by {
        if !complete(m[i]) {
            crate::search::lemma_find_first_some(m, incomplete(), i);
        }
    }
    lemma_has_memory_iff(m, "USR_1"@);
}

proof fn lemma_find_first_same_names(a: Seq<MemoryView>, b: Seq<MemoryView>, n: Seq<char>)
    requires
        a.len() <= b.len(),
        forall|i: int| 0 <= i < a.len() ==> #[trigger] a[i].name == b[i].name,
        find_first(a, memory_named(n)) is Some,
    ensures
        find_first(b, memory_named(n)) == find_first(a, memory_named(n)),
{
    let k = find_first(a, memory_named(n))->0;
    assert(is_first_match(a, memory_named(n), k));
    assert forall|j: int| 0 <= j < k implies !memory_named(n)(#[trigger] b[j]) by {
        assert(a[j].name == b[j].name);
        assert(!memory_named(n)(a[j]));
    }
    assert(a[k].name == b[k].name);
    lemma_find_first_is(b, memory_named(n), k);
}

/// A successful split gives `USR_1` the code size and `RAM` the RAM size of the default split;
/// where the chip had no `USR_2`, the split appends it right behind the code, with the rest of
/// the flash: the two flash regions together hold the whole flash.
pub proof fn law_split_partitions_flash(mem: Seq<MemoryView>, config: MemoryRamCodeConfig, chip: Seq<char>)
    requires
        split_fits(mem, config),
        apply_split(mem, config, chip).1 is None,
    ensures
        ({
            let r = apply_split(mem, config, chip).0;
            let opt = config.configs@[find_first(config.configs@, option_named(config.default@))->0];
            let usr1 = r[find_first(r, memory_named("USR_1"@))->0];
            let ram = r[find_first(r, memory_named("RAM"@))->0];
            &&& find_first(r, memory_named("USR_1"@)) is Some
            &&& find_first(r, memory_named("RAM"@)) is Some
            &&& usr1.size == Some(opt.code)
            &&& ram.size == Some(opt.ram)
            &&& !has_memory(mem, "USR_2"@) ==> {
                &&& r.last().name == "USR_2"@
                &&& r.last().size matches Some(s2) && opt.code + s2 == config.total_flash
                &&& usr1.address matches Some(a) && a + opt.code <= u32::MAX
                    && r.last().address == Some((a + opt.code) as u32)
            }
        }),
{
    let oi = find_first(config.configs@, option_named(config.default@))->0;
    let opt = config.configs@[oi];
    let ui = find_first(mem, memory_named("USR_1"@))->0;
    assert(is_first_match(mem, memory_named("USR_1"@), ui));
    let mem1 = mem.update(ui, with_size(mem[ui], opt.code));
    let ri = find_first(mem1, memory_named("RAM"@))->0;
    assert(is_first_match(mem1, memory_named("RAM"@), ri));
    let mem2 = mem1.update(ri, with_size(mem1[ri], opt.ram));
    let r = apply_split(mem, config, chip).0;
    assert(forall|i: int| 0 <= i < mem.len() ==> #[trigger] mem[i].name == mem1[i].name);
    assert(forall|i: int| 0 <= i < mem1.len() ==> #[trigger] mem1[i].name == mem2[i].name);
    assert(forall|i: int| 0 <= i < mem2.len() ==> #[trigger] mem2[i].name == r[i].name);
    lemma_find_first_same_names(mem, mem1, "USR_1"@);
    lemma_find_first_same_names(mem1, mem2, "USR_1"@);
    lemma_find_first_same_names(mem2, r, "USR_1"@);
    lemma_find_first_same_names(mem1, mem2, "RAM"@);
    lemma_find_first_same_names(mem2, r, "RAM"@);
    assert(ri != ui) by {
        reveal_strlit("USR_1");
        reveal_strlit("RAM");
        assert(mem1[ui].name == "USR_1"@);
        assert(mem1[ri].name == "RAM"@);
    }
    assert(r[ui] == mem2[ui]);
    assert(r[ri] == mem2[ri]);
    assert(mem2[ui] == mem1[ui]);
    assert(mem1[ui].size == Some(opt.code));
    assert(mem2[ri].size == Some(opt.ram));
    lemma_has_memory_iff(mem, "USR_2"@);
    lemma_has_memory_iff(mem2, "USR_2"@);
    assert(forall|i: int| 0 <= i < mem1.len() ==> #[trigger] mem1[i].name == mem[i].name);
    lemma_find_first_same_names(mem1, mem, "RAM"@);
    assert(has_memory(mem, "RAM"@));
    assert(find_first(r, memory_named("USR_1"@)) == Some(ui));
    assert(find_first(r, memory_named("RAM"@)) == Some(ri));
    if !has_memory(mem, "USR_2"@) {
        assert(!has_memory(mem2, "USR_2"@)) by {
            if has_memory(mem2, "USR_2"@) {
                let i = choose|i: int| 0 <= i < mem2.len() && mem2[i].name == "USR_2"@;
                assert(mem[i].name == mem1[i].name);
            }
        }
        assert(r == mem2.push(usr2_region(mem1[ui], (mem[ui].address->0 + opt.code) as u32, (config.total_flash - opt.code) as u32)));
        assert(r.last().size == Some((config.total_flash - opt.code) as u32));
    }
}

} // verus!
