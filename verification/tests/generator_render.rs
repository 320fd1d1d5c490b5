use std::path::PathBuf;

use ch32_data::chip::cores::peripheral::Registers;
use ch32_data::chip::cores::Peripheral;
use ch32_data::generator::core_extra::{core_extra, core_extra_error, peripheral_versions};
use ch32_data::generator::data::Chip;
use ch32_data::generator::render::{
    memory_rs, metadata_module, metadata_rs, metadata_tables, peripheral_file, registers_rs,
    stringify_text,
};
use ch32_data::generator::{Gen, Options};
use ch32_data::mem_layout::{MemoryRegion, MemoryRegionKind, MemoryRole, Mode};

const NOTE: &str = "use ch32_metapac::metadata::METADATA.memory (enable the `metadata` feature) instead";

fn region(name: &str, kind: MemoryRegionKind, address: u32, size: u32, page: u32) -> MemoryRegion {
    MemoryRegion {
        name: name.to_string(),
        kind,
        role: MemoryRole::Application,
        address,
        size,
        modes: vec![Mode::Fast { page_size: page, load_size: 4 }],
        access: None,
    }
}

fn chip(memory: Vec<MemoryRegion>) -> Chip {
    Chip {
        name: "CH32V203C8T6".to_string(),
        family: "CH32V2".to_string(),
        subfamily: "CH32V203".to_string(),
        memory,
        memory_sizes: Vec::new(),
        memory_ram_code_config: None,
        default_memory_option: None,
    }
}

fn two_flash() -> Vec<MemoryRegion> {
    vec![
        region("USR_1", MemoryRegionKind::Flash, 0x0800_0000, 128 * 1024, 256),
        region("USR_2", MemoryRegionKind::Flash, 0x0802_0000, 352 * 1024, 256),
        region("RAM", MemoryRegionKind::Ram, 0x2000_0000, 64 * 1024, 256),
    ]
}

fn peripheral(name: &str, address: u32, kind: &str, version: &str) -> Peripheral {
    Peripheral {
        name: name.to_string(),
        address,
        registers: Some(Registers {
            kind: kind.to_string(),
            version: version.to_string(),
            block: kind.to_ascii_uppercase(),
        }),
        rcc: None,
        remap: None,
        pins: Vec::new(),
        interrupts: None,
        dma_channels: Vec::new(),
    }
}

fn peripherals() -> Vec<Peripheral> {
    vec![
        peripheral("RCC", 0x4002_1000, "rcc", "v2"),
        peripheral("GPIOA", 0x4001_0800, "gpio", "v1"),
        peripheral("GPIOB", 0x4001_0C00, "gpio", "v1"),
    ]
}

fn pair(a: &str, b: &str) -> (String, String) {
    (a.to_string(), b.to_string())
}

#[test]
fn core_extra_versions_in_kind_order() {
    let v = peripheral_versions(&peripherals()).unwrap();
    assert_eq!(v, vec![pair("gpio", "v1"), pair("rcc", "v2")]);
}

#[test]
fn core_extra_text() {
    let c = chip(two_flash());
    assert_eq!(core_extra_error(&c, &peripherals(), 1), None);
    let (versions, extra) = core_extra(&c, &peripherals(), 1);
    assert_eq!(versions, vec![pair("gpio", "v1"), pair("rcc", "v2")]);
    let expected = format!(
        "pub fn GPIO(n: usize) -> gpio::Gpio {{\n            unsafe {{ gpio::Gpio::from_ptr((1073809408 + 1024*n) as _) }}\n        }}\
         #[path=\"../../peripherals/gpio_v1.rs\"] pub mod gpio;\n\
         #[path=\"../../peripherals/rcc_v2.rs\"] pub mod rcc;\n\
         pub const CORE_INDEX: usize = 1;\n\
         #[deprecated(note = \"{n}\")]\npub const FLASH_BASE: usize = 0;\n\
         #[deprecated(note = \"{n}\")]\npub const FLASH_SIZE: usize = 491520;\n\
         #[deprecated(note = \"{n}\")]\npub const WRITE_SIZE: usize = 256;\n",
        n = NOTE
    );
    assert_eq!(extra, expected);
}

#[test]
fn core_extra_without_gpioa() {
    let ps = vec![peripheral("RCC", 0x4002_1000, "rcc", "v2")];
    assert_eq!(peripheral_versions(&ps), Err("GPIOA must exist".to_string()));
    assert_eq!(core_extra_error(&chip(two_flash()), &ps, 0), Some("GPIOA must exist".to_string()));
}

#[test]
fn core_extra_kind_with_two_versions() {
    let mut ps = peripherals();
    ps.push(peripheral("RCC2", 0x4002_2000, "rcc", "v3"));
    assert_eq!(peripheral_versions(&ps), Err("Peripheral rcc has multiple versions: v2 and v3".to_string()));
}

#[test]
fn core_extra_gpio_off_stride() {
    let mut ps = peripherals();
    ps.push(peripheral("GPIOC", 0x4001_0900, "gpio", "v1"));
    assert_eq!(
        peripheral_versions(&ps),
        Err("assertion `left == right` failed\n  left: 0\n right: 256".to_string())
    );
}

#[test]
fn core_extra_flash_errors() {
    let none = chip(vec![region("RAM", MemoryRegionKind::Ram, 0x2000_0000, 1024, 256)]);
    assert_eq!(
        core_extra_error(&none, &peripherals(), 0),
        Some("called `Option::unwrap()` on a `None` value".to_string())
    );

    let mut plain = two_flash();
    plain[1].modes = vec![Mode::Standard { erase_size: 4096, write_size: 4 }];
    assert_eq!(
        core_extra_error(&chip(plain), &peripherals(), 0),
        Some("flash region needs a write size".to_string())
    );

    let mut mixed = two_flash();
    mixed[1].modes = vec![Mode::Fast { page_size: 64, load_size: 4 }];
    assert_eq!(
        core_extra_error(&chip(mixed), &peripherals(), 0),
        Some("assertion `left == right` failed\n  left: 1\n right: 2".to_string())
    );
}

#[test]
fn render_stringify_borrows_slices() {
    assert_eq!(stringify_text("[Foo { a: [1, 2] }]"), "&[Foo { a: &[1, 2] }]");
    assert_eq!(stringify_text("Bar { b: [] }"), "Bar { b: &[] }");
}

#[test]
fn render_metadata_tables_and_module() {
    let tables = metadata_tables("&[P]", "&[I]", "&[]");
    assert_eq!(
        tables,
        "\n                pub(crate) static PERIPHERALS: &[Peripheral] = &[P];\n                pub(crate) static INTERRUPTS: &[Interrupt] = &[I];\n                pub(crate) static DMA_CHANNELS: &[DmaChannel] = &[];\n            "
    );
    let module = metadata_module("ir: \":ir_for:gpio:\", x: \":ir_for:rcc:\"", &vec![pair("gpio", "v1")]);
    assert_eq!(
        module,
        "ir: &gpio::REGISTERS, x: &rcc::REGISTERS#[path=\"../registers/gpio_v1.rs\"] pub mod gpio;\n"
    );
}

#[test]
fn render_metadata_file() {
    let text = metadata_rs("metadata_0003.rs", "#[a]\n", "CH32V003F4P6", "CH32V0", "CH32V003", "&[]", "default");
    let expected = "include!(\"../metadata_0003.rs\");\n            use crate::metadata::PeripheralRccKernelClock::{Clock, Mux};\n#[a]\n            mod memory_select;\n            pub static METADATA: Metadata = Metadata {\n                name: \"CH32V003F4P6\",\n                family: \"CH32V0\",\n                line: \"CH32V003\",\n                memory: memory_select::MEMORY,\n                memory_options: &[],\n                default_memory_option: \"default\",\n                peripherals: PERIPHERALS,\n                // nvic_priority_bits: 0,\n                interrupts: INTERRUPTS,\n                dma_channels: DMA_CHANNELS,\n            };";
    assert_eq!(text, expected);
}

#[test]
fn render_block_files() {
    let header = "#![allow(clippy::missing_safety_doc)]\n                #![allow(clippy::identity_op)]\n                #![allow(clippy::unnecessary_cast)]\n                #![allow(clippy::erasing_op)]";
    assert_eq!(peripheral_file("#![no_std] a] b"), format!("{}\na]\nb", header));
    assert_eq!(
        registers_rs("REGISTERS", "IR { x: 1 }"),
        "\n                    use crate::metadata::ir::*;\n                    pub(crate) static REGISTERS: IR = IR { x: 1 };\n                "
    );
    assert_eq!(
        memory_rs("&[]"),
        "use crate::mem_layout::{Access, MemoryRegion, MemoryRegionKind, MemoryRole::*, Mode::*};\n\npub static MEMORY: &[MemoryRegion] = &[];\n"
    );
}

#[test]
fn metadata_files_are_shared_by_equal_tables() {
    let mut g = Gen::new(Options { chips: Vec::new(), out_dir: PathBuf::from("out"), data_dir: PathBuf::from("data") });
    let versions = vec![pair("gpio", "v1")];
    let (f1, m1) = g.metadata_for("A".to_string(), &versions);
    assert_eq!(f1, "metadata_0000.rs");
    assert_eq!(m1, Some("A#[path=\"../registers/gpio_v1.rs\"] pub mod gpio;\n".to_string()));
    let (f2, m2) = g.metadata_for("B".to_string(), &versions);
    assert_eq!(f2, "metadata_0001.rs");
    assert!(m2.is_some());
    let (f3, m3) = g.metadata_for("A".to_string(), &versions);
    assert_eq!(f3, "metadata_0000.rs");
    assert_eq!(m3, None);
}
