use std::path::PathBuf;

use ch32_data::chip::{MemoryRamCodeConfig, MemoryRamCodeOption};
use ch32_data::generator::chip::{build_memory_options, default_option_name};
use ch32_data::generator::data::{Chip, MemoryOption};
use ch32_data::generator::dump::{chip_dump, split_prefixes_from_names, to_render_region};
use ch32_data::generator::memory::{access_str, flash_write_size, kind_str, memory_for_option, primary_flash_regions, regions_text};
use ch32_data::generator::{chip_core_name, device_x, ir_placeholder, Gen, Options};
use ch32_data::mem_layout::{Access, MemoryRegion, MemoryRegionKind, MemoryRole, Mode};
use ch32_data::memory_x_render::parse_regions;

fn region(name: &str, kind: MemoryRegionKind, address: u32, size: u32) -> MemoryRegion {
    MemoryRegion {
        name: name.to_string(),
        kind,
        role: MemoryRole::Application,
        address,
        size,
        modes: vec![Mode::Fast { page_size: 256, load_size: 4 }],
        access: None,
    }
}

fn chip() -> Chip {
    Chip {
        name: "CH32V208WBU6".to_string(),
        family: "CH32V2".to_string(),
        subfamily: "CH32V208".to_string(),
        memory: vec![
            region("USR_1", MemoryRegionKind::Flash, 0x0800_0000, 128 * 1024),
            region("USR_2", MemoryRegionKind::Flash, 0x0802_0000, 352 * 1024),
            region("RAM", MemoryRegionKind::Ram, 0x2000_0000, 64 * 1024),
            region("SYS_1", MemoryRegionKind::Flash, 0x1FFF_8000, 28 * 1024),
        ],
        memory_sizes: Vec::new(),
        memory_ram_code_config: Some(MemoryRamCodeConfig {
            total_flash: 480 * 1024,
            default: "c128_r64".to_string(),
            configs: vec![
                MemoryRamCodeOption { name: "c128_r64".to_string(), code: 128 * 1024, ram: 64 * 1024 },
                MemoryRamCodeOption { name: "c144_r48".to_string(), code: 144 * 1024, ram: 48 * 1024 },
            ],
        }),
        default_memory_option: Some("c128_r64".to_string()),
    }
}

#[test]
fn generator_access_and_kind_texts() {
    assert_eq!(access_str(Some(&Access { read: true, write: false, execute: true })), "r-x");
    assert_eq!(access_str(Some(&Access { read: false, write: true, execute: false })), "-w-");
    assert_eq!(access_str(None), "rwx");
    assert_eq!(kind_str(&MemoryRegionKind::Flash), "flash");
    assert_eq!(kind_str(&MemoryRegionKind::Ram), "ram");
}

#[test]
fn generator_primary_flash_and_write_size() {
    let c = chip();
    let names: Vec<&str> = primary_flash_regions(&c).iter().map(|r| r.name.as_str()).collect();
    assert_eq!(names, vec!["USR_1", "USR_2"]);
    assert_eq!(flash_write_size(&c.memory[0]), Some(256));
    let mut plain = region("X", MemoryRegionKind::Flash, 0, 0);
    plain.modes = vec![Mode::Standard { erase_size: 1, write_size: 1 }];
    assert_eq!(flash_write_size(&plain), None);
}

#[test]
fn generator_options_from_split() {
    let c = chip();
    let opts = build_memory_options(&c);
    assert_eq!(opts.len(), 2);
    assert_eq!(opts[1].name, "c144_r48");
    assert_eq!(
        opts[1].region_sizes,
        vec![("USR_1".to_string(), 144 * 1024), ("USR_2".to_string(), 336 * 1024), ("RAM".to_string(), 48 * 1024)]
    );
    assert_eq!(opts[1].region_addresses, vec![("USR_2".to_string(), 0x0800_0000 + 144 * 1024)]);
    assert_eq!(default_option_name(&c), "c128_r64");
}

#[test]
fn generator_default_option_without_split() {
    let mut c = chip();
    c.memory_ram_code_config = None;
    c.memory_sizes = vec![("RAM".to_string(), 20 * 1024)];
    let opts = build_memory_options(&c);
    assert_eq!(opts.len(), 1);
    assert_eq!(opts[0].name, "default");
    assert_eq!(opts[0].region_sizes, vec![("RAM".to_string(), 20 * 1024)]);
    assert!(opts[0].region_addresses.is_empty());
    assert_eq!(default_option_name(&c), "default");
}

#[test]
fn generator_memory_for_option_applies_sizes_then_addresses() {
    let c = chip();
    let opt = MemoryOption {
        name: "x".to_string(),
        region_sizes: vec![("USR_1".to_string(), 10), ("NOPE".to_string(), 1), ("RAM".to_string(), 20)],
        region_addresses: vec![("USR_2".to_string(), 0x0800_000A)],
    };
    let m = memory_for_option(&c, &opt);
    assert_eq!(m[0].size, 10);
    assert_eq!(m[1].address, 0x0800_000A);
    assert_eq!(m[1].size, 352 * 1024);
    assert_eq!(m[2].size, 20);
    assert_eq!(m[3], c.memory[3]);
}

#[test]
fn generator_regions_text_reads_back() {
    let mut c = chip();
    c.memory[2].access = Some(Access { read: true, write: true, execute: false });
    let text = regions_text(&c.memory);
    assert!(text.starts_with("USR_1 0x08000000 131072 rwx flash\nUSR_2 0x08020000 360448 rwx flash\nRAM 0x20000000 65536 rw- ram\n"));
    let back = parse_regions(&text);
    let expected: Vec<_> = c.memory.iter().map(to_render_region).collect();
    assert_eq!(back.len(), expected.len());
    for (a, b) in back.iter().zip(expected.iter()) {
        assert_eq!((&a.name, a.address, a.size, &a.access, &a.kind), (&b.name, b.address, b.size, &b.access, &b.kind));
    }
}

#[test]
fn generator_split_prefixes_need_two_banks() {
    assert_eq!(split_prefixes_from_names(&["USR_1", "USR_2", "SYS_1", "RAM", "Sram_1", "SRAM_2"]), vec!["sram", "usr"]);
    assert!(split_prefixes_from_names(&["USR_1", "SYS_1"]).is_empty());
    assert!(split_prefixes_from_names(&[]).is_empty());
}

#[test]
fn generator_chip_dump_lists_every_option() {
    let c = chip();
    let d = chip_dump(&c);
    assert_eq!(d.name, "CH32V208WBU6");
    assert_eq!(d.default_option, "c128_r64");
    assert_eq!(d.options.len(), 2);
    assert_eq!(d.options[1].name, "c144_r48");
    assert_eq!(d.options[1].regions[0].size, 144 * 1024);
    assert_eq!(d.options[1].regions[1].address, 0x0802_4000);
    assert_eq!(d.options[1].regions[2].access, "rwx");
    assert_eq!(d.options[1].regions[2].kind, "ram");
}

#[test]
fn generator_names_and_texts() {
    assert_eq!(chip_core_name("CH32V307", 1, "V4F"), "CH32V307");
    assert_eq!(chip_core_name("CH32H417", 2, "V5F"), "CH32H417-V5F");
    assert_eq!(ir_placeholder("gpio"), ":ir_for:gpio:");
    assert_eq!(
        device_x(&vec!["WWDG".to_string(), "PVD".to_string()]),
        "PROVIDE(WWDG = DefaultHandler);\nPROVIDE(PVD = DefaultHandler);\n"
    );
    assert_eq!(device_x(&Vec::new()), "");
}

#[test]
fn generator_gathers_features() {
    let mut g = Gen::new(Options { chips: vec!["A".to_string()], out_dir: PathBuf::from("out"), data_dir: PathBuf::from("data") });
    assert!(g.memory_option_features.is_empty());
    let c = chip();
    let opts = build_memory_options(&c);
    g.note_memory_features(&c, &opts);
    assert_eq!(g.memory_option_features, vec!["c128_r64", "c144_r48"]);
    assert_eq!(g.memory_split_prefixes, vec!["usr"]);
    let single = vec![MemoryOption { name: "default".to_string(), region_sizes: Vec::new(), region_addresses: Vec::new() }];
    g.note_memory_features(&c, &single);
    assert_eq!(g.memory_option_features, vec!["c128_r64", "c144_r48"]);
    g.note_version("gpio".to_string(), "v3".to_string(), false);
    g.note_version("gpio".to_string(), "v3".to_string(), false);
    g.note_version("ob".to_string(), "v0".to_string(), true);
    assert_eq!(g.all_peripheral_versions, vec![("gpio".to_string(), "v3".to_string())]);
    assert_eq!(g.all_nv_versions, vec![("ob".to_string(), "v0".to_string())]);
    let text = g.cargo_features(&vec!["CH32V208WBU6".to_string()]);
    assert_eq!(
        text,
        "ch32v208wbu6 = []\n\nmemory-config-c128_r64 = []\nmemory-config-c144_r48 = []\n\nmemory-split-usr = [\"memory-x\"]\n"
    );
}

#[test]
fn generator_metadata_files_are_deduplicated() {
    let mut g = Gen::new(Options { chips: Vec::new(), out_dir: PathBuf::new(), data_dir: PathBuf::new() });
    assert_eq!(g.metadata_file("a".to_string()), ("metadata_0000.rs".to_string(), true));
    assert_eq!(g.metadata_file("b".to_string()), ("metadata_0001.rs".to_string(), true));
    assert_eq!(g.metadata_file("a".to_string()), ("metadata_0000.rs".to_string(), false));
    assert_eq!(g.cargo_features(&Vec::new()), "");
}

#[test]
fn chip_names_from_chip_files() {
    let files: Vec<String> = ["CH32V203C8T6.json", "README.md", "CH32L103C8T6.json", "CH32V003F4P6.json.bak"]
        .iter()
        .map(|s| s.to_string())
        .collect();
    assert_eq!(
        ch32_data::generator::dump::chip_names(&files),
        vec!["CH32L103C8T6".to_string(), "CH32V203C8T6".to_string()]
    );
}
