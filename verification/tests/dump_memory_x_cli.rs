use ch32_data::dump_memory_x::{
    chip_all_error, chip_features_error, cli_error, feature_label, features_error, find_option_error,
    parse_cli, parse_feature_list, render_chip_all, render_chip_features, render_variant, resolve_features,
    select_chips, select_chips_error, variant_error,
};
use ch32_data::generator::dump::{ChipDump, ChipOption};
use ch32_data::memory_x_render::Region;

fn s(v: &[&str]) -> Vec<String> {
    v.iter().map(|x| x.to_string()).collect()
}

fn region(name: &str, address: u32, size: u32, kind: &str) -> Region {
    Region { name: name.to_string(), address, size, access: "rwx".to_string(), kind: kind.to_string() }
}

fn dump() -> ChipDump {
    let regions = vec![
        region("USR_1", 0x0800_0000, 0x1_0000, "flash"),
        region("USR_2", 0x0801_0000, 0x1_0000, "flash"),
        region("RAM", 0x2000_0000, 0x5000, "ram"),
    ];
    let mut other = regions.clone();
    other[2].size = 0x4000;
    ChipDump {
        name: "CH32V203".to_string(),
        default_option: "b".to_string(),
        options: vec![
            ChipOption { name: "c".to_string(), regions: other },
            ChipOption { name: "b".to_string(), regions },
        ],
    }
}

#[test]
fn cli_feature_lists() {
    assert_eq!(parse_feature_list("Memory-X, memory-split-usr  ,,x"), s(&["memory-x", "memory-split-usr", "x"]));
    assert!(parse_feature_list(" , ").is_empty());
}

#[test]
fn cli_arguments() {
    let args = s(&["prog", "ch32v203*", "--features", "memory-x", "CH32X035", "--features=memory-split-usr"]);
    assert_eq!(cli_error(&args), None);
    let cli = parse_cli(&args);
    assert_eq!(cli.chips, s(&["ch32v203*", "CH32X035"]));
    assert_eq!(cli.features, Some(s(&["memory-split-usr"])));
    let none = parse_cli(&s(&["prog", "A"]));
    assert_eq!(none.features, None);
    assert_eq!(cli_error(&s(&["prog", "-f"])), Some("-f requires a value".to_string()));
    assert_eq!(
        cli_error(&s(&["prog", "-x"])),
        Some("Unknown flag: -x (recognized: --features/-f)".to_string())
    );
}

#[test]
fn cli_features_resolve() {
    let (opt, splits) = resolve_features(&s(&["memory-x", "memory-split-usr", "memory-config-c1", "memory-split-sys", "memory-split-usr"]));
    assert_eq!(opt, Some("c1".to_string()));
    assert_eq!(splits, s(&["sys", "usr"]));
    assert_eq!(
        features_error(&s(&["memory-config-a", "memory-config-b"])),
        Some("Multiple memory-config-* features given: memory-config-a, memory-config-b".to_string())
    );
    assert_eq!(features_error(&s(&["defmt"])), Some("Unknown feature: defmt".to_string()));
    assert_eq!(features_error(&s(&["memory-x"])), None);
}

#[test]
fn cli_chip_selection() {
    let all = s(&["CH32V203C8T6", "CH32V203RBT6", "CH32X035G8U6"]);
    assert_eq!(select_chips(&[], &all), all);
    assert_eq!(select_chips(&s(&["ch32x035g8u6", "CH32V203*"]), &all), s(&["CH32V203C8T6", "CH32V203RBT6", "CH32X035G8U6"]));
    assert_eq!(select_chips(&s(&["ch32v203r*", "CH32V203RBT6"]), &all), s(&["CH32V203RBT6"]));
    assert_eq!(select_chips_error(&[], &[]), Some("No chips found under build/data/chips".to_string()));
    assert_eq!(select_chips_error(&s(&["CH32*V*"]), &all), Some("Only trailing `*` is supported in chip globs: CH32*V*".to_string()));
    assert_eq!(select_chips_error(&s(&["CH32L103"]), &all), Some("Unknown chip: CH32L103".to_string()));
    assert_eq!(select_chips_error(&s(&["CH32L*"]), &all), Some("No chips matched".to_string()));
}

#[test]
fn cli_labels() {
    assert_eq!(feature_label("b", "b", &Vec::new()), "(no memory-config-* / memory-split-* features \u{2014} default)");
    assert_eq!(feature_label("c", "b", &s(&["sys", "usr"])), "memory-config-c, memory-split-sys, memory-split-usr");
    assert_eq!(feature_label("b", "b", &s(&["usr"])), "memory-split-usr");
}

#[test]
fn cli_render_variant_has_header() {
    let d = dump();
    assert_eq!(variant_error(&d.options[1].regions, &Vec::new()), None);
    let text = render_variant(&d.options[1].regions, &Vec::new(), "L");
    let bar = "=".repeat(72);
    assert!(text.starts_with(&format!("# {}\n# features: L\n# {}\n\nMEMORY\n{{\n", bar, bar)));
    assert!(text.contains("    USR    (rwx) : ORIGIN = 0x08000000, LENGTH =  128K\n"));
    let only_ram = vec![region("RAM", 0x2000_0000, 0x5000, "ram")];
    assert_eq!(variant_error(&only_ram, &Vec::new()), Some("no flash region after resolution".to_string()));
    let only_flash = vec![region("USR_1", 0x0800_0000, 0x5000, "flash")];
    assert_eq!(variant_error(&only_flash, &Vec::new()), Some("no ram region after resolution".to_string()));
}

#[test]
fn cli_render_chip_features() {
    let d = dump();
    assert_eq!(chip_features_error(&d, &s(&["memory-split-usr"])), None);
    let text = render_chip_features(&d, &s(&["memory-split-usr"]));
    assert!(text.contains("# features: memory-split-usr\n"));
    assert!(text.contains("    USR_1  (rwx) : ORIGIN = 0x08000000, LENGTH =   64K\n"));
    let text = render_chip_features(&d, &s(&["memory-config-c"]));
    assert!(text.contains("# features: memory-config-c\n"));
    assert!(text.contains("LENGTH =   16K\n"));
    assert_eq!(find_option_error(&d, "z"), Some("Chip CH32V203 has no memory-config-z (available: c, b)".to_string()));
    assert_eq!(
        chip_features_error(&d, &s(&["memory-config-z"])),
        Some("Chip CH32V203 has no memory-config-z (available: c, b)".to_string())
    );
}

#[test]
fn cli_render_chip_all_orders_default_first() {
    let d = dump();
    assert_eq!(chip_all_error(&d), None);
    let text = render_chip_all(&d);
    let labels: Vec<&str> = text.lines().filter(|l| l.starts_with("# features: ")).collect();
    assert_eq!(
        labels,
        vec![
            "# features: (no memory-config-* / memory-split-* features \u{2014} default)",
            "# features: memory-split-usr",
            "# features: memory-config-c",
            "# features: memory-config-c, memory-split-usr",
        ]
    );
    assert!(text.ends_with(");\n\n"));
}

#[test]
fn cli_render_chip_all_stops_at_first_failing_configuration_in_order() {
    let mut d = dump();
    // "c" comes first in the list, but the default "b" renders first.
    d.options[0].regions.retain(|r| r.kind != "ram");
    d.options[1].regions.retain(|r| r.kind != "flash");
    assert_eq!(chip_all_error(&d), Some("no flash region after resolution".to_string()));
    d.options[1].regions.push(region("USR_1", 0x0800_0000, 0x1_0000, "flash"));
    assert_eq!(chip_all_error(&d), Some("no ram region after resolution".to_string()));
}

#[test]
fn cli_header_features_select_their_variant() {
    let d = dump();
    let label = feature_label("c", "b", &s(&["usr"]));
    let features = parse_feature_list(&label);
    assert_eq!(features, s(&["memory-config-c", "memory-split-usr"]));
    let (opt, splits) = resolve_features(&features);
    assert_eq!(opt, Some("c".to_string()));
    assert_eq!(splits, s(&["usr"]));
    assert_eq!(chip_features_error(&d, &features), None);
    let again = render_chip_features(&d, &features);
    assert_eq!(again, render_variant(&d.options[0].regions, &s(&["usr"]), &label));
    let all = render_chip_all(&d);
    assert!(all.contains(&format!("{}\n", again)));
}
