use ch32_data::chip::cores::peripheral::pin::Pin;
use ch32_data::mem_layout::{Access, MemoryLayout, MemoryRegion, MemoryRegionKind, MemoryRole, Mode};

#[test]
fn pin_parse_and_name() {
    assert_eq!(Pin::parse("PA3"), Some(Pin { port: 'A', num: 3 }));
    assert_eq!(Pin::parse("PB15"), Some(Pin { port: 'B', num: 15 }));
    assert_eq!(Pin::parse("QA3"), None);
    assert_eq!(Pin::parse("P"), None);
    assert_eq!(Pin::parse("PA"), None);
    assert_eq!(Pin::parse("PA256"), None);
    assert_eq!(Pin { port: 'C', num: 13 }.to_string(), "PC13");
}

#[test]
fn pin_name_round_trips() {
    for port in ['A', 'B', 'Z', 'x'] {
        for num in [0u8, 7, 10, 99, 255] {
            let p = Pin { port, num };
            assert_eq!(Pin::parse(&p.to_string()), Some(p));
        }
    }
}

fn region(name: &str, role: MemoryRole, address: u32, size: u32, modes: Vec<Mode>, access: Option<Access>) -> MemoryRegion {
    MemoryRegion { name: name.to_string(), kind: MemoryRegionKind::Flash, role, address, size, modes, access }
}

#[test]
fn layout_find_and_roles() {
    let layout = MemoryLayout {
        regions: vec![
            region("USR_1", MemoryRole::Application, 0x0800_0000, 0x1000, Vec::new(), None),
            region("SYS_1", MemoryRole::System, 0x1FFF_0000, 0x100, Vec::new(), None),
            region("USR_1", MemoryRole::Application, 0x0900_0000, 0x1000, Vec::new(), None),
        ],
    };
    assert_eq!(layout.find("USR_1").map(|r| r.address), Some(0x0800_0000));
    assert!(layout.find("usr_1").is_none());
    assert_eq!(layout.find_by_role(MemoryRole::System).map(|r| r.name.as_str()), Some("SYS_1"));
    assert!(layout.find_by_role(MemoryRole::Tcm).is_none());
}

#[test]
fn layout_region_geometry() {
    let modes = vec![
        Mode::Standard { erase_size: 4096, write_size: 2 },
        Mode::Fast { page_size: 256, load_size: 4 },
    ];
    let r = region("USR_1", MemoryRole::Application, 0x0800_0000, 0x1000, modes, Some(Access { read: true, write: false, execute: true }));
    assert_eq!(r.page_program_size(), Some(256));
    assert_eq!(r.fast_load_size(), Some(4));
    assert_eq!(r.erase_size(), Some(4096));
    assert_eq!(r.write_size(), Some(2));
    assert_eq!(r.end(), 0x0800_1000);
    assert!(r.contains(0x0800_0000));
    assert!(r.contains(0x0800_0FFF));
    assert!(!r.contains(0x0800_1000));
    assert!(r.readable() && !r.writable() && r.executable());
    let bare = region("RAM", MemoryRole::Ram, 0, 16, Vec::new(), None);
    assert!(bare.readable() && bare.writable() && bare.executable());
    assert_eq!(bare.page_program_size(), None);
    assert!(Mode::Fast { page_size: 1, load_size: 1 }.is_fast());
    assert!(Mode::Standard { erase_size: 1, write_size: 1 }.is_standard());
}
