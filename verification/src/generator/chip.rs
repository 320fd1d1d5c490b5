//! The memory variants of a chip.
use vstd::prelude::*;

use crate::chip::{MemoryRamCodeConfig, MemoryRamCodeOption};
use crate::generator::data::{option_views, pair_views, Chip, MemoryOption, MemoryOptionView};
use crate::generator::memory::view_named;
use crate::mem_layout::{region_views, str_eq, MemoryRegion};
use crate::search::{find_first, lemma_find_first_is, lemma_find_first_none};

verus! {

/// The variant of one code/RAM split: `USR_1` gets the code size, `USR_2` the rest of the flash
/// right behind it, and `RAM` the RAM size.
pub open spec fn split_option(c: MemoryRamCodeOption, total_flash: u32, usr1_address: u32) -> MemoryOptionView {
    MemoryOptionView {
        name: c.name@,
        region_sizes: seq![
            ("USR_1"@, c.code),
            ("USR_2"@, (total_flash - c.code) as u32),
            ("RAM"@, c.ram),
        ],
        region_addresses: seq![("USR_2"@, (usr1_address + c.code) as u32)],
    }
}

/// The address of the chip's first `USR_1` region.
pub open spec fn usr1_address(chip: Chip) -> u32 {
    chip.memory@[find_first(region_views(chip.memory@), view_named("USR_1"@))->0].address
}

/// The memory variants of a chip: one per code/RAM split where the chip has splits, else one
/// variant `default` with the chip's per-region sizes.
pub open spec fn spec_build_memory_options(chip: Chip) -> Seq<MemoryOptionView> {
    match chip.memory_ram_code_config {
        Some(config) => config.configs@.map_values(
            |c: MemoryRamCodeOption| split_option(c, config.total_flash, usr1_address(chip)),
        ),
        None => seq![
            MemoryOptionView {
                name: "default"@,
                region_sizes: pair_views(chip.memory_sizes@),
                region_addresses: Seq::empty(),
            },
        ],
    }
}

/// A chip with splits has a `USR_1` region, and every split fits the flash and keeps `USR_2`'s
/// address within 32 bits.
pub open spec fn memory_options_defined(chip: Chip) -> bool {
    chip.memory_ram_code_config matches Some(config) ==> {
        &&& find_first(region_views(chip.memory@), view_named("USR_1"@)) is Some
        &&& forall|i: int| 0 <= i < config.configs@.len() ==> {
            &&& (#[trigger] config.configs@[i]).code <= config.total_flash
            &&& usr1_address(chip) + config.configs@[i].code <= u32::MAX
        }
    }
}

fn copy_pairs(v: &Vec<(String, u32)>) -> (r: Vec<(String, u32)>)
    ensures
        pair_views(r@) == pair_views(v@),
{
    let mut r: Vec<(String, u32)> = Vec::new();
    let mut i: usize = 0;
    while i < v.len()
        invariant
            i <= v@.len(),
            pair_views(r@) == pair_views(v@.take(i as int)),
        decreases v@.len() - i,
    {
        let ghost prev = r@;
        let d = (v[i].0.clone(), v[i].1);
        r.push(d);
        i += 1;
        assert(v@.take(i as int) =~= v@.take(i - 1).push(v@[i - 1]));
        assert(pair_views(r@) =~= pair_views(prev).push((v@[i - 1].0@, v@[i - 1].1)));
        assert(pair_views(v@.take(i as int)) =~= pair_views(v@.take(i - 1)).push((v@[i - 1].0@, v@[i - 1].1)));
    }
    assert(v@.take(v@.len() as int) =~= v@);
    r
}

fn usr1_index(memory: &Vec<MemoryRegion>) -> (r: Option<usize>)
    ensures
        match r {
            Some(i) => i < memory@.len() && find_first(region_views(memory@), view_named("USR_1"@)) == Some(i as int),
            None => find_first(region_views(memory@), view_named("USR_1"@)) is None,
        },
{
    let ghost v = region_views(memory@);
    let mut i: usize = 0;
    while i < memory.len()
        invariant
            v == region_views(memory@),
            i <= memory@.len(),
            forall|j: int| 0 <= j < i ==> !view_named("USR_1"@)(#[trigger] v[j]),
        decreases memory@.len() - i,
    {
        if str_eq(memory[i].name.as_str(), "USR_1") {
            proof {
                lemma_find_first_is(v, view_named("USR_1"@), i as int);
            }
            return Some(i);
        }
        i += 1;
    }
    proof {
        lemma_find_first_none(v, view_named("USR_1"@));
    }
    None
}

fn split_memory_option(c: &MemoryRamCodeOption, total_flash: u32, usr1: u32) -> (r: MemoryOption)
    requires
        c.code <= total_flash,
        usr1 + c.code <= u32::MAX,
    ensures
        r@ == split_option(*c, total_flash, usr1),
{
    let rest: u32 = total_flash - c.code;
    let usr2: u32 = usr1 + c.code;
    let r = MemoryOption {
        name: c.name.clone(),
        region_sizes: vec![
            (String::from_str("USR_1"), c.code),
            (String::from_str("USR_2"), rest),
            (String::from_str("RAM"), c.ram),
        ],
        region_addresses: vec![(String::from_str("USR_2"), usr2)],
    };
    assert(r@.region_sizes =~= split_option(*c, total_flash, usr1).region_sizes);
    assert(r@.region_addresses =~= split_option(*c, total_flash, usr1).region_addresses);
    r
}

/// The memory variants of a chip: one per code/RAM split where the chip has splits (`USR_1`
/// with the code size, `USR_2` with the rest of the flash right behind it, `RAM` with the RAM
/// size), else a single variant `default` with the chip's per-region sizes.
pub fn build_memory_options(chip: &Chip) -> (r: Vec<MemoryOption>)
    requires
        memory_options_defined(*chip),
        crate::chip::keys_ascending(chip.memory_sizes@),
    ensures
        option_views(r@) == spec_build_memory_options(*chip),
{
    match &chip.memory_ram_code_config {
        Some(config) => {
            let ui = match usr1_index(&chip.memory) {
                Some(ui) => ui,
                None => {
                    return Vec::new();
                },
            };
            let usr1 = chip.memory[ui].address;
            let ghost target = spec_build_memory_options(*chip);
            let mut out: Vec<MemoryOption> = Vec::new();
            let mut i: usize = 0;
            while i < config.configs.len()
                invariant
                    chip.memory_ram_code_config == Some(*config),
                    usr1 == usr1_address(*chip),
                    memory_options_defined(*chip),
                    target == spec_build_memory_options(*chip),
                    target.len() == config.configs@.len(),
                    i <= config.configs@.len(),
                    option_views(out@) == target.take(i as int),
                decreases config.configs@.len() - i,
            {
                let ghost prev = out@;
                assert(config.configs@[i as int].code <= config.total_flash);
                let o = split_memory_option(&config.configs[i], config.total_flash, usr1);
                out.push(o);
                i += 1;
                assert(option_views(out@) =~= option_views(prev).push(o@));
                assert(target.take(i as int) =~= target.take(i - 1).push(target[i - 1]));
            }
            assert(target.take(i as int) =~= target);
            out
        },
        None => {
            let o = MemoryOption {
                name: String::from_str("default"),
                region_sizes: copy_pairs(&chip.memory_sizes),
                region_addresses: Vec::new(),
            };
            let out = vec![o];
            assert(o@.region_addresses =~= Seq::<(Seq<char>, u32)>::empty());
            assert(option_views(out@) =~= spec_build_memory_options(*chip));
            out
        },
    }
}

/// The name of the memory variant that applies by default: the default split where the chip
/// has splits, else `default`.
pub open spec fn spec_default_option_name(chip: Chip) -> Seq<char> {
    match chip.memory_ram_code_config {
        Some(c) => c.default@,
        None => "default"@,
    }
}

/// The name of the memory variant that applies by default.
pub fn default_option_name(chip: &Chip) -> (r: &str)
    ensures
        r@ == spec_default_option_name(*chip),
{
    match &chip.memory_ram_code_config {
        Some(c) => c.default.as_str(),
        None => "default",
    }
}


/// Predicate on a split: its code size exceeds the flash, or `USR_2` would start beyond 32 bits.
pub open spec fn split_fails(total_flash: u32, usr1: u32) -> spec_fn(MemoryRamCodeOption) -> bool {
    |c: MemoryRamCodeOption| c.code > total_flash || usr1 + c.code > u32::MAX
}

/// Why the memory variants of a chip cannot be built, if they cannot: a split without `USR_1`,
/// else the first split whose arithmetic leaves 32 bits (the flash left after the code, then
/// `USR_2`'s address).
pub open spec fn spec_memory_options_error(chip: Chip) -> Option<Seq<char>> {
    match chip.memory_ram_code_config {
        None => None,
        Some(config) => if find_first(region_views(chip.memory@), view_named("USR_1"@)) is None {
            Some("memory_ram_code_config without USR_1 should have been caught by resolver"@)
        } else {
            match find_first(config.configs@, split_fails(config.total_flash, usr1_address(chip))) {
                None => None,
                Some(j) => if config.configs@[j].code > config.total_flash {
                    Some("attempt to subtract with overflow"@)
                } else {
                    Some("attempt to add with overflow"@)
                },
            }
        },
    }
}

/// Whether the memory variants of a chip can be built (see [`build_memory_options`]); if not,
/// the reason (see `spec_memory_options_error`).
pub fn memory_options_error(chip: &Chip) -> (r: Option<String>)
    ensures
        r is None <==> memory_options_defined(*chip),
        match spec_memory_options_error(*chip) {
            Some(e) => r matches Some(t) && t@ == e,
            None => r is None,
        },
{
    match &chip.memory_ram_code_config {
        None => None,
        Some(config) => {
            let ui = match usr1_index(&chip.memory) {
                Some(ui) => ui,
                None => {
                    return Some(String::from_str("memory_ram_code_config without USR_1 should have been caught by resolver"));
                },
            };
            let usr1 = chip.memory[ui].address;
            let mut i: usize = 0;
            while i < config.configs.len()
                invariant
                    chip.memory_ram_code_config == Some(*config),
                    find_first(region_views(chip.memory@), view_named("USR_1"@)) == Some(ui as int),
                    ui < chip.memory@.len(),
                    usr1 == chip.memory@[ui as int].address,
                    i <= config.configs@.len(),
                    forall|j: int| 0 <= j < i ==> {
                        &&& (#[trigger] config.configs@[j]).code <= config.total_flash
                        &&& usr1 + config.configs@[j].code <= u32::MAX
                    },
                    usr1 == usr1_address(*chip),
                decreases config.configs@.len() - i,
            {
                let code = config.configs[i].code;
                assert(usr1_address(*chip) == usr1);
                if code > config.total_flash {
                    assert(!memory_options_defined(*chip)) by {
                        if memory_options_defined(*chip) {
                            let c = chip.memory_ram_code_config->Some_0;
                            assert(c == *config);
                            assert(c.configs@[i as int].code <= c.total_flash);
                        }
                    }
                    proof {
                        lemma_find_first_is(config.configs@, split_fails(config.total_flash, usr1), i as int);
                    }
                    return Some(String::from_str("attempt to subtract with overflow"));
                }
                if usr1 as u64 + code as u64 > 0xffff_ffffu64 {
                    assert(!memory_options_defined(*chip)) by {
                        if memory_options_defined(*chip) {
                            let c = chip.memory_ram_code_config->Some_0;
                            assert(c == *config);
                            assert(usr1_address(*chip) + c.configs@[i as int].code <= u32::MAX);
                        }
                    }
                    proof {
                        lemma_find_first_is(config.configs@, split_fails(config.total_flash, usr1), i as int);
                    }
                    return Some(String::from_str("attempt to add with overflow"));
                }
                i += 1;
            }
            proof {
                lemma_find_first_none(config.configs@, split_fails(config.total_flash, usr1));
            }
            None
        },
    }
}

} // verus!
