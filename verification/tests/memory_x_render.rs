use ch32_data::memory_x_render::{
    access_attrs, format_length, parse_regions, regions_resolve_defined, render_memory_x, resolve_regions,
    split_name, try_parse_regions, Region,
};

fn region(name: &str, address: u32, size: u32, access: &str, kind: &str) -> Region {
    Region {
        name: name.to_string(),
        address,
        size,
        access: access.to_string(),
        kind: kind.to_string(),
    }
}

fn summary(v: &[Region]) -> Vec<(String, u32, u32)> {
    v.iter().map(|r| (r.name.clone(), r.address, r.size)).collect()
}

#[test]
fn render_length_formats() {
    assert_eq!(format_length(64 * 1024), "  64K");
    assert_eq!(format_length(1000), " 1000");
    assert_eq!(format_length(0), "    0");
    assert_eq!(format_length(1536), " 1536");
}

#[test]
fn render_access_attrs_drop_dashes() {
    assert_eq!(access_attrs("rwx"), "(rwx)");
    assert_eq!(access_attrs("r-x"), "(rx)");
    assert_eq!(access_attrs("---"), "()");
}

#[test]
fn render_split_name_cases() {
    assert_eq!(split_name("USR_1"), Some(("USR", 1)));
    assert_eq!(split_name("SRAM_SHARED_12"), Some(("SRAM_SHARED", 12)));
    assert_eq!(split_name("RAM"), None);
    assert_eq!(split_name("USR_"), None);
    assert_eq!(split_name("USR_1a"), None);
    assert_eq!(split_name("USR_99999999999"), None);
}

#[test]
fn render_resolve_merges_contiguous_banks() {
    let regions = vec![
        region("RAM", 0x2000_0000, 0x8000, "rwx", "ram"),
        region("USR_2", 0x0804_0000, 0x2_0000, "r-x", "flash"),
        region("USR_1", 0x0800_0000, 0x4_0000, "r-x", "flash"),
        region("SYS_1", 0x1FFF_0000, 0, "r-x", "flash"),
    ];
    assert!(regions_resolve_defined(&regions, &Vec::new()));
    let out = resolve_regions(&regions, &Vec::new());
    assert_eq!(
        summary(&out),
        vec![("USR".to_string(), 0x0800_0000, 0x6_0000), ("RAM".to_string(), 0x2000_0000, 0x8000)]
    );
}

#[test]
fn render_resolve_keeps_forced_split() {
    let regions = vec![
        region("USR_1", 0x0800_0000, 0x4_0000, "r-x", "flash"),
        region("USR_2", 0x0804_0000, 0x2_0000, "r-x", "flash"),
        region("RAM", 0x2000_0000, 0x8000, "rwx", "ram"),
    ];
    let out = resolve_regions(&regions, &vec!["usr".to_string()]);
    assert_eq!(
        summary(&out),
        vec![
            ("USR_1".to_string(), 0x0800_0000, 0x4_0000),
            ("USR_2".to_string(), 0x0804_0000, 0x2_0000),
            ("RAM".to_string(), 0x2000_0000, 0x8000)
        ]
    );
}

#[test]
fn render_resolve_keeps_gapped_banks() {
    let regions = vec![
        region("USR_1", 0x0800_0000, 0x1000, "r-x", "flash"),
        region("USR_2", 0x0800_2000, 0x1000, "r-x", "flash"),
        region("RAM", 0x2000_0000, 0x8000, "rwx", "ram"),
    ];
    let out = resolve_regions(&regions, &Vec::new());
    assert_eq!(out.len(), 3);
    assert_eq!(out[0].name, "USR_1");
}

#[test]
fn render_resolve_overflow_is_detected() {
    let regions = vec![
        region("USR_1", 0xFFFF_0000, 0x1_0000, "r-x", "flash"),
        region("USR_2", 0xFFFF_FF00, 0x10, "r-x", "flash"),
    ];
    assert!(!regions_resolve_defined(&regions, &Vec::new()));
    let apart = vec![
        region("USR_1", 0xFFFF_F000, 0x2000, "r-x", "flash"),
        region("USR_2", 0x0000_1000, 0x1000, "r-x", "flash"),
    ];
    assert!(regions_resolve_defined(&apart, &Vec::new()));
}

#[test]
fn render_memory_x_with_boot_alias() {
    let regions = vec![
        region("USR", 0x0800_0000, 0x1_0000, "r-x", "flash"),
        region("RAM", 0x2000_0000, 0x5000, "rwx", "ram"),
    ];
    let text = render_memory_x(&regions);
    let expected = "MEMORY\n{\n    CODE   (rx)  : ORIGIN = 0x00000000, LENGTH =   64K /* USR boot alias */\n    USR    (rx)  : ORIGIN = 0x08000000, LENGTH =   64K\n    RAM    (rwx) : ORIGIN = 0x20000000, LENGTH =   20K\n}\n\nREGION_ALIAS(\"FLASH\", CODE);\n\nREGION_ALIAS(\"REGION_TEXT\", CODE);\nREGION_ALIAS(\"REGION_RODATA\", CODE);\nREGION_ALIAS(\"REGION_DATA\", RAM);\nREGION_ALIAS(\"REGION_BSS\", RAM);\nREGION_ALIAS(\"REGION_HEAP\", RAM);\nREGION_ALIAS(\"REGION_STACK\", RAM);\n";
    assert_eq!(text, expected);
}

#[test]
fn render_memory_x_without_boot_alias() {
    let regions = vec![
        region("FLASH", 0x0000_0000, 1000, "r-x", "flash"),
        region("RAM", 0x2000_0000, 0x800, "rw-", "ram"),
    ];
    let text = render_memory_x(&regions);
    assert!(text.starts_with("MEMORY\n{\n    FLASH  (rx)  : ORIGIN = 0x00000000, LENGTH =  1000\n"));
    assert!(text.contains("REGION_ALIAS(\"REGION_TEXT\", FLASH);\n"));
    assert!(!text.contains("CODE"));
}

#[test]
fn render_parse_regions_reads_lines() {
    let src = "# comment\n\nUSR_1 0x08000000 65536 r-x flash\r\n  RAM 0x0x20000000 20480 rwx ram  \n";
    let v = parse_regions(src);
    assert_eq!(
        summary(&v),
        vec![("USR_1".to_string(), 0x0800_0000, 65536), ("RAM".to_string(), 0x2000_0000, 20480)]
    );
    assert_eq!(v[1].access, "rwx");
    assert_eq!(v[1].kind, "ram");
}

#[test]
fn render_parse_regions_rejects_malformed_lines() {
    assert!(try_parse_regions("USR_1 0x08000000 65536 r-x").is_none());
    assert!(try_parse_regions("USR_1 0xZZ 65536 r-x flash").is_none());
    assert!(try_parse_regions("USR_1 0x0 -1 r-x flash").is_none());
}

#[test]
fn regions_file_in_line_format_reads_back() {
    let src = format!(
        "{} 0x{:08x} {} {} {}\n{} 0x{:08x} {} {} {}\n",
        "BOOT", 0x1FFF_8000u32, 28672u32, "r-x", "flash", "SRAM_2", 0x2001_0000u32, 512u32, "rw", "sram"
    );
    let rs = ch32_data::memory_x_render::parse_regions(&src);
    assert_eq!(rs.len(), 2);
    assert_eq!(
        (rs[0].name.as_str(), rs[0].address, rs[0].size, rs[0].access.as_str(), rs[0].kind.as_str()),
        ("BOOT", 0x1FFF_8000, 28672, "r-x", "flash")
    );
    assert_eq!(
        (rs[1].name.as_str(), rs[1].address, rs[1].size, rs[1].access.as_str(), rs[1].kind.as_str()),
        ("SRAM_2", 0x2001_0000, 512, "rw", "sram")
    );
}
