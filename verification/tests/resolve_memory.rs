use ch32_data::chip::memory::{Access, Kind, Mode};
use ch32_data::chip::{Chip, Memory, MemoryRamCodeConfig, MemoryRamCodeOption};
use ch32_data::resolve::{append_family_regions, enter_include};

fn mem(name: &str, kind: Option<Kind>, address: Option<u32>, size: Option<u32>) -> Memory {
    Memory {
        name: name.to_string(),
        kind,
        address,
        size,
        modes: Vec::new(),
        access: None,
        cores: None,
        structs: Vec::new(),
    }
}

fn flash(name: &str, address: u32, size: u32) -> Memory {
    mem(name, Some(Kind::Flash), Some(address), Some(size))
}

fn ram(name: &str, address: u32, size: u32) -> Memory {
    mem(name, Some(Kind::Ram), Some(address), Some(size))
}

fn chip(memory: Vec<Memory>) -> Chip {
    Chip {
        name: "CH32V203".to_string(),
        family: "CH32V2".to_string(),
        subfamily: "CH32V203".to_string(),
        product_type: "MCU".to_string(),
        keywords: Vec::new(),
        packages: Vec::new(),
        include_memory: None,
        memory,
        memory_sizes: Vec::new(),
        memory_ram_code_config: None,
        docs: Vec::new(),
        cores: Vec::new(),
    }
}

fn split_config(default: &str) -> MemoryRamCodeConfig {
    MemoryRamCodeConfig {
        total_flash: 480 * 1024,
        default: default.to_string(),
        configs: vec![
            MemoryRamCodeOption { name: "c128_r64".to_string(), code: 128 * 1024, ram: 64 * 1024 },
            MemoryRamCodeOption { name: "c224_r32".to_string(), code: 224 * 1024, ram: 32 * 1024 },
        ],
    }
}

fn names(c: &Chip) -> Vec<String> {
    c.memory.iter().map(|m| m.name.clone()).collect()
}

#[test]
fn resolve_legacy_chip_is_unchanged() {
    let mut c = chip(vec![flash("FLASH", 0x0800_0000, 0x1_0000), ram("RAM", 0x2000_0000, 0x5000)]);
    let before = c.memory.clone();
    assert!(c.resolve_fits(&Ok(Vec::new())));
    assert_eq!(c.resolve_memory(Ok(Vec::new())), Ok(()));
    assert_eq!(c.memory, before);
}

#[test]
fn resolve_include_appends_regions_in_order() {
    let mut c = chip(vec![ram("RAM", 0x2000_0000, 0x5000)]);
    c.include_memory = Some("../memory/ch32v20x.yaml".to_string());
    let included = vec![flash("USR_1", 0x0800_0000, 0x1_0000), flash("SYS_1", 0x1FFF_8000, 0x4000)];
    assert_eq!(c.resolve_memory(Ok(included)), Ok(()));
    assert_eq!(names(&c), vec!["RAM", "USR_1", "SYS_1"]);
    assert_eq!(c.include_memory, None);
}

#[test]
fn resolve_include_error_is_passed_on() {
    let mut c = chip(vec![]);
    c.include_memory = Some("a.yaml".to_string());
    let err = c.resolve_memory(Err("read memory include \"a.yaml\": gone".to_string()));
    assert_eq!(err, Err("read memory include \"a.yaml\": gone".to_string()));
}

#[test]
fn resolve_include_collision() {
    let mut c = chip(vec![flash("USR_1", 0x0800_0000, 0x1_0000)]);
    c.include_memory = Some("fam.yaml".to_string());
    let err = c.resolve_memory(Ok(vec![flash("USR_1", 0x0800_0000, 0x1_0000)]));
    assert_eq!(
        err,
        Err("memory region \"USR_1\" on chip \"CH32V203\" collides with a region from \"fam.yaml\" (include_memory appends; sizes go through memory_sizes or memory_ram_code_config)".to_string())
    );
}

#[test]
fn resolve_sizes_fill_in_regions() {
    let mut c = chip(vec![
        mem("USR_1", Some(Kind::Flash), Some(0x0800_0000), None),
        mem("RAM", Some(Kind::Ram), Some(0x2000_0000), None),
    ]);
    c.memory_sizes = vec![("RAM".to_string(), 20 * 1024), ("USR_1".to_string(), 64 * 1024)];
    assert_eq!(c.resolve_memory(Ok(Vec::new())), Ok(()));
    assert_eq!(c.memory[0].size, Some(64 * 1024));
    assert_eq!(c.memory[1].size, Some(20 * 1024));
}

#[test]
fn resolve_unknown_sized_region() {
    let mut c = chip(vec![flash("USR_1", 0x0800_0000, 0x1_0000)]);
    c.memory_sizes = vec![("USR_9".to_string(), 1024)];
    assert_eq!(
        c.resolve_memory(Ok(Vec::new())),
        Err("memory_sizes references unknown region \"USR_9\" for chip \"CH32V203\"".to_string())
    );
}

#[test]
fn resolve_exclusive_sizing() {
    let mut c = chip(vec![flash("USR_1", 0x0800_0000, 0x1_0000), ram("RAM", 0x2000_0000, 0x5000)]);
    c.memory_sizes = vec![("RAM".to_string(), 1024)];
    c.memory_ram_code_config = Some(split_config("c128_r64"));
    assert_eq!(
        c.resolve_memory(Ok(Vec::new())),
        Err("chip \"CH32V203\": memory_sizes and memory_ram_code_config are mutually exclusive (memory_ram_code_config already determines all region sizes)".to_string())
    );
    assert_eq!(c.include_memory, None);
}

#[test]
fn resolve_split_places_usr2_behind_code() {
    let mut usr1 = mem("USR_1", Some(Kind::Flash), Some(0x0800_0000), None);
    usr1.modes = vec![Mode::Fast { page_size: 256, load_size: 4 }];
    usr1.access = Some(Access { read: true, write: false, execute: true });
    usr1.cores = Some(vec!["V4F".to_string()]);
    let mut c = chip(vec![usr1, mem("RAM", Some(Kind::Ram), Some(0x2000_0000), None)]);
    c.memory_ram_code_config = Some(split_config("c224_r32"));
    assert!(c.resolve_fits(&Ok(Vec::new())));
    assert_eq!(c.resolve_memory(Ok(Vec::new())), Ok(()));
    assert_eq!(names(&c), vec!["USR_1", "RAM", "USR_2"]);
    assert_eq!(c.memory[0].size, Some(224 * 1024));
    assert_eq!(c.memory[1].size, Some(32 * 1024));
    let usr2 = &c.memory[2];
    assert_eq!(usr2.kind, Some(Kind::Flash));
    assert_eq!(usr2.address, Some(0x0800_0000 + 224 * 1024));
    assert_eq!(usr2.size, Some(256 * 1024));
    assert_eq!(usr2.modes, vec![Mode::Fast { page_size: 256, load_size: 4 }]);
    assert_eq!(usr2.access, Some(Access { read: true, write: false, execute: true }));
    assert_eq!(usr2.cores, Some(vec!["V4F".to_string()]));
    assert!(usr2.structs.is_empty());
    // the two flash regions hold the whole flash
    assert_eq!(c.memory[0].size.unwrap() + usr2.size.unwrap(), 480 * 1024);
}

#[test]
fn resolve_split_keeps_existing_usr2() {
    let mut c = chip(vec![
        mem("USR_1", Some(Kind::Flash), Some(0x0800_0000), None),
        mem("RAM", Some(Kind::Ram), Some(0x2000_0000), None),
        flash("USR_2", 0x0810_0000, 4096),
    ]);
    c.memory_ram_code_config = Some(split_config("c128_r64"));
    assert_eq!(c.resolve_memory(Ok(Vec::new())), Ok(()));
    assert_eq!(c.memory.len(), 3);
    assert_eq!(c.memory[2].size, Some(4096));
}

#[test]
fn resolve_split_default_missing() {
    let mut c = chip(vec![flash("USR_1", 0x0800_0000, 0), ram("RAM", 0x2000_0000, 0)]);
    c.memory_ram_code_config = Some(split_config("c999"));
    assert_eq!(
        c.resolve_memory(Ok(Vec::new())),
        Err("memory_ram_code_config.default \"c999\" not in configs for chip \"CH32V203\"".to_string())
    );
}

#[test]
fn resolve_split_without_usr1() {
    let mut c = chip(vec![ram("RAM", 0x2000_0000, 0)]);
    c.memory_ram_code_config = Some(split_config("c128_r64"));
    assert_eq!(
        c.resolve_memory(Ok(Vec::new())),
        Err("memory_ram_code_config requires a USR_1 region for chip \"CH32V203\"".to_string())
    );
}

#[test]
fn resolve_usr1_without_address() {
    let mut c = chip(vec![mem("USR_1", Some(Kind::Flash), None, None), ram("RAM", 0x2000_0000, 0)]);
    c.memory_ram_code_config = Some(split_config("c128_r64"));
    assert_eq!(
        c.resolve_memory(Ok(Vec::new())),
        Err("USR_1 region for chip \"CH32V203\" has no address (memory_ram_code_config needs it to place USR_2)".to_string())
    );
    // the size of USR_1 was set before the address was found missing
    assert_eq!(c.memory[0].size, Some(128 * 1024));
}

#[test]
fn resolve_split_without_ram() {
    let mut c = chip(vec![flash("USR_1", 0x0800_0000, 0)]);
    c.memory_ram_code_config = Some(split_config("c128_r64"));
    assert_eq!(
        c.resolve_memory(Ok(Vec::new())),
        Err("memory_ram_code_config requires a RAM region for chip \"CH32V203\"".to_string())
    );
}

#[test]
fn resolve_total_flash_too_small() {
    let mut c = chip(vec![flash("USR_1", 0x0800_0000, 0), ram("RAM", 0x2000_0000, 0)]);
    let mut config = split_config("c224_r32");
    config.total_flash = 100;
    c.memory_ram_code_config = Some(config);
    assert_eq!(
        c.resolve_memory(Ok(Vec::new())),
        Err("memory_ram_code_config: total_flash (100) < default config code (229376) for chip \"CH32V203\"".to_string())
    );
}

#[test]
fn resolve_incomplete_region() {
    let mut c = chip(vec![flash("USR_1", 0x0800_0000, 0x1000), mem("RAM", Some(Kind::Ram), None, Some(10))]);
    assert_eq!(
        c.resolve_memory(Ok(Vec::new())),
        Err("memory region \"RAM\" on chip \"CH32V203\" is missing kind/address/size after resolution".to_string())
    );
}

#[test]
fn resolve_missing_usr1_with_new_schema() {
    let mut c = chip(vec![flash("FLASH", 0x0800_0000, 0x1000)]);
    c.memory_sizes = vec![("FLASH".to_string(), 0x2000)];
    assert_eq!(
        c.resolve_memory(Ok(Vec::new())),
        Err("chip \"CH32V203\" has no USR_1 memory region; USR_1 is the primary user flash and must be defined (additional banks use USR_2, USR_3, ...; system flash banks use SYS_1, SYS_2, ...)".to_string())
    );
}

#[test]
fn resolve_fits_detects_usr2_address_overflow() {
    let c0 = {
        let mut c = chip(vec![flash("USR_1", 0xFFFF_0000, 0), ram("RAM", 0x2000_0000, 0)]);
        c.memory_ram_code_config = Some(split_config("c128_r64"));
        c
    };
    assert!(!c0.resolve_fits(&Ok(Vec::new())));
}

#[test]
fn include_cycle_is_reported_with_the_chain() {
    let mut visited = vec!["/d/a.yaml".to_string()];
    assert_eq!(enter_include(&mut visited, "/d/b.yaml".to_string(), "/d/b.yaml"), Ok(()));
    assert_eq!(visited, vec!["/d/a.yaml", "/d/b.yaml"]);
    let err = enter_include(&mut visited, "/d/a.yaml".to_string(), "./a.yaml");
    assert_eq!(err, Err("cycle in include_memory chain: /d/a.yaml -> /d/b.yaml -> ./a.yaml".to_string()));
    assert_eq!(visited.len(), 2);
}

#[test]
fn chain_collision_is_reported() {
    let mut combined = vec![flash("USR_1", 0, 1)];
    assert_eq!(append_family_regions(&mut combined, vec![flash("SYS_1", 2, 3)], "p.yaml"), Ok(()));
    let err = append_family_regions(&mut combined, vec![flash("RAM", 9, 9), flash("SYS_1", 4, 5)], "c.yaml");
    assert_eq!(
        err,
        Err("memory region \"SYS_1\" from \"c.yaml\" collides with a region from a parent include (include_memory appends; each region must be declared exactly once in a chain)".to_string())
    );
    assert_eq!(combined.iter().map(|m| m.name.as_str()).collect::<Vec<_>>(), vec!["USR_1", "SYS_1", "RAM"]);
}

#[test]
fn include_chain_enter_and_leave() {
    let mut visited: Vec<String> = Vec::new();
    assert_eq!(ch32_data::resolve::enter_include(&mut visited, "a".to_string(), "a.yaml"), Ok(()));
    assert_eq!(ch32_data::resolve::enter_include(&mut visited, "b".to_string(), "b.yaml"), Ok(()));
    assert!(ch32_data::resolve::enter_include(&mut visited, "a".to_string(), "a.yaml").is_err());
    ch32_data::resolve::leave_include(&mut visited);
    assert_eq!(visited, vec!["a".to_string()]);
    assert_eq!(ch32_data::resolve::enter_include(&mut visited, "b".to_string(), "b.yaml"), Ok(()));
}
