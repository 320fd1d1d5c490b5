use ch32_data::mem_layout::{Access as RegionAccess, MemoryRegion, MemoryRegionKind, MemoryRole};
use ch32_data::nv::bits::bit_mask;
use ch32_data::nv::codec::is_n_complement;
use ch32_data::nv::descriptor::Descriptor;
use ch32_data::nv::ir::{
    Access, BitOffset, Block, BlockItem, BlockItemInner, Enum, EnumVariant, Field, FieldSet,
    NvMetadata, NvStruct, NvStructBinding, Register, IR,
};
use ch32_data::nv::types::{EncodeError, EncodeInput, ValidationError, Value};
use ch32_data::nv::{decode, encode};

const BUF: usize = 256;

fn region(name: &str, address: u32, size: u32, role: MemoryRole) -> MemoryRegion {
    MemoryRegion {
        name: name.to_string(),
        kind: MemoryRegionKind::Flash,
        role,
        address,
        size,
        modes: Vec::new(),
        access: Some(RegionAccess { read: true, write: false, execute: false }),
    }
}

fn reg_item(name: &str, byte_offset: u32, bit_size: u32, access: Access, fieldset: Option<&str>) -> BlockItem {
    BlockItem {
        name: name.to_string(),
        description: Some(format!("{} register", name)),
        byte_offset,
        inner: BlockItemInner::Register(Register {
            access,
            bit_size,
            fieldset: fieldset.map(|s| s.to_string()),
        }),
    }
}

fn field(name: &str, bit_offset: u32, bit_size: u32, enumm: Option<&str>) -> Field {
    Field {
        name: name.to_string(),
        description: Some(format!("{} field", name)),
        bit_offset: BitOffset::Regular(bit_offset),
        bit_size,
        enumm: enumm.map(|s| s.to_string()),
    }
}

fn option_bytes() -> NvStruct {
    let items = vec![
        reg_item("RDPR", 0, 8, Access::ReadWrite, None),
        reg_item("NRDPR", 1, 8, Access::Read, None),
        reg_item("USER", 2, 8, Access::ReadWrite, Some("USER")),
        reg_item("NUSER", 3, 8, Access::Read, None),
        reg_item("DATA0", 4, 8, Access::ReadWrite, None),
        reg_item("NDATA0", 5, 8, Access::Read, None),
        reg_item("DATA1", 6, 8, Access::ReadWrite, None),
        reg_item("NDATA1", 7, 8, Access::Read, None),
        reg_item("WRPR0", 8, 8, Access::ReadWrite, None),
        reg_item("NWRPR0", 9, 8, Access::Read, None),
        reg_item("WRPR1", 10, 8, Access::ReadWrite, None),
        reg_item("NWRPR1", 11, 8, Access::Read, None),
    ];
    let user = FieldSet {
        name: "USER".to_string(),
        description: None,
        bit_size: 8,
        fields: vec![
            field("IWDG_SW", 0, 1, None),
            field("STANDBY_RST", 2, 1, None),
            field("RST_MODE", 3, 2, Some("RST_MODE")),
            field("START_MODE", 5, 1, Some("START_MODE")),
        ],
    };
    let rst_mode = Enum {
        name: "RST_MODE".to_string(),
        description: None,
        bit_size: 2,
        variants: vec![
            EnumVariant { name: "DELAY_128US".to_string(), description: None, value: 0 },
            EnumVariant { name: "DELAY_1MS".to_string(), description: None, value: 1 },
            EnumVariant { name: "DELAY_12MS".to_string(), description: None, value: 2 },
            EnumVariant { name: "DISABLED".to_string(), description: None, value: 3 },
        ],
    };
    let start_mode = Enum {
        name: "START_MODE".to_string(),
        description: None,
        bit_size: 1,
        variants: vec![
            EnumVariant { name: "USER".to_string(), description: None, value: 0 },
            EnumVariant { name: "BOOT".to_string(), description: None, value: 1 },
        ],
    };
    NvStruct {
        name: "OB".to_string(),
        kind: "ob".to_string(),
        block: "OB".to_string(),
        ir: IR {
            blocks: vec![Block { name: "OB".to_string(), description: None, items }],
            fieldsets: vec![user],
            enums: vec![rst_mode, start_mode],
        },
        defaults: vec![
            ("RDPR".to_string(), 0xA5),
            ("NRDPR".to_string(), 0x5A),
            ("USER".to_string(), 0xF7),
            ("DATA0".to_string(), 0xFF),
        ],
    }
}

fn esig() -> NvStruct {
    let items = vec![
        reg_item("FLACAP", 0, 16, Access::Read, None),
        reg_item("UID", 4, 96, Access::Read, None),
    ];
    NvStruct {
        name: "ESIG".to_string(),
        kind: "esig".to_string(),
        block: "ESIG".to_string(),
        ir: IR {
            blocks: vec![Block { name: "ESIG".to_string(), description: None, items }],
            fieldsets: Vec::new(),
            enums: Vec::new(),
        },
        defaults: Vec::new(),
    }
}

fn metadata() -> NvMetadata {
    NvMetadata {
        memory: vec![
            region("OPT", 0x1FFF_F800, 64, MemoryRole::OptionBytes),
            region("VND", 0x1FFF_F7C0, 64, MemoryRole::Vendor),
        ],
        nv_structs: vec![
            NvStructBinding { region: "OPT".to_string(), structs: vec![option_bytes()] },
            NvStructBinding { region: "VND".to_string(), structs: vec![esig()] },
        ],
    }
}

fn block_of<'a>(d: &Descriptor<'a>) -> &'a Block {
    d.block().expect("descriptor has block")
}

fn writable(item: &BlockItem) -> Option<&Register> {
    match Descriptor::register_of(item) {
        Some(r) if !matches!(r.access, Access::Read) => Some(r),
        _ => None,
    }
}

fn decoded_to_u64(d: &Descriptor, path: &str, v: Value) -> u64 {
    match v {
        Value::Literal(x) => x,
        Value::Variant(name) => {
            let info = d.describe(path).unwrap();
            let enumm = info.enumm.expect("Value::Variant requires an enum");
            enumm.variants.iter().find(|v| v.name == name).unwrap().value
        }
        Value::Bytes(_) => panic!("unexpected Value::Bytes for {}", path),
    }
}

/// Pre-fill `buf` so every writable entry has been encoded once; this leaves
/// all N-complement pairs aligned and `validate` clean.
fn flush_writable_entries(d: &Descriptor, buf: &mut [u8]) {
    for item in &block_of(d).items {
        let Some(reg) = writable(item) else { continue };
        if reg.bit_size > 64 {
            continue;
        }
        d.encode(buf, &item.name, EncodeInput::Literal(0)).unwrap();
    }
}

#[test]
fn nv_find_round_trips_for_every_kind() {
    let meta = metadata();
    for d in Descriptor::iter(&meta) {
        let found = Descriptor::find(&meta, d.kind()).expect("find by own kind");
        assert_eq!(found.kind(), d.kind());
        assert_eq!(found.name(), d.name());
    }
    assert!(Descriptor::find(&meta, "__no_such_kind__").is_none());
}

#[test]
fn nv_find_is_case_insensitive() {
    let meta = metadata();
    for d in Descriptor::iter(&meta) {
        let upper: String = d.kind().chars().map(|c| c.to_ascii_uppercase()).collect();
        assert!(Descriptor::find(&meta, &upper).is_some());
    }
}

#[test]
fn nv_entries_match_block_items() {
    let meta = metadata();
    for d in Descriptor::iter(&meta) {
        let api: Vec<_> = d.entries();
        let meta_names: Vec<_> = block_of(&d).items.iter().map(|i| i.name.as_str()).collect();
        assert_eq!(api, meta_names, "{} entries", d.kind());
    }
}

#[test]
fn nv_fields_match_fieldset_when_present() {
    let meta = metadata();
    for d in Descriptor::iter(&meta) {
        for item in &block_of(&d).items {
            match d.fieldset_of(item) {
                Some(fs) => {
                    let api: Vec<_> = d.fields(&item.name).unwrap();
                    let meta_names: Vec<_> = fs.fields.iter().map(|f| f.name.as_str()).collect();
                    assert_eq!(api, meta_names, "{}.{} fields", d.kind(), item.name);
                }
                None => assert!(d.fields(&item.name).is_none()),
            }
        }
    }
}

#[test]
fn nv_describe_entry_matches_metadata() {
    let meta = metadata();
    for d in Descriptor::iter(&meta) {
        for item in &block_of(&d).items {
            let reg = Descriptor::register_of(item).unwrap();
            let info = d.describe(&item.name).unwrap();
            assert_eq!(info.byte_offset, item.byte_offset);
            assert_eq!(info.bit_offset, 0);
            assert_eq!(info.bit_size, reg.bit_size);
            assert_eq!(info.access, reg.access);
            assert!(info.enumm.is_none());
            assert_eq!(info.description, item.description);
        }
    }
}

#[test]
fn nv_describe_field_matches_metadata() {
    let meta = metadata();
    for d in Descriptor::iter(&meta) {
        for item in &block_of(&d).items {
            let Some(fs) = d.fieldset_of(item) else {
                continue;
            };
            for field in &fs.fields {
                let BitOffset::Regular(off) = &field.bit_offset else {
                    continue;
                };
                let path = format!("{}.{}", item.name, field.name);
                let info = d.describe(&path).unwrap();
                assert_eq!(info.byte_offset, item.byte_offset);
                assert_eq!(info.bit_offset, *off);
                assert_eq!(info.bit_size, field.bit_size);
                assert_eq!(info.enumm.is_some(), field.enumm.is_some());
                assert_eq!(info.description, field.description);
            }
        }
    }
}

#[test]
fn nv_entry_literal_roundtrip_for_every_writable_entry() {
    let meta = metadata();
    for d in Descriptor::iter(&meta) {
        let mut buf = [0u8; BUF];
        for item in &block_of(&d).items {
            let Some(reg) = writable(item) else { continue };
            if reg.bit_size > 64 {
                continue;
            }
            for &val in &[0u64, bit_mask(reg.bit_size)] {
                d.encode(&mut buf, &item.name, EncodeInput::Literal(val)).unwrap();
                let v = d.decode(&buf, &item.name).unwrap();
                assert_eq!(
                    decoded_to_u64(&d, &item.name, v),
                    val,
                    "{}.{} literal {}",
                    d.kind(),
                    item.name,
                    val
                );
            }
        }
    }
}

#[test]
fn nv_field_literal_roundtrip_for_every_writable_field() {
    let meta = metadata();
    for d in Descriptor::iter(&meta) {
        let mut buf = [0u8; BUF];
        for item in &block_of(&d).items {
            if writable(item).is_none() {
                continue;
            }
            let Some(fs) = d.fieldset_of(item) else {
                continue;
            };
            for field in &fs.fields {
                if !matches!(field.bit_offset, BitOffset::Regular(_)) {
                    continue;
                }
                let path = format!("{}.{}", item.name, field.name);
                for &val in &[0u64, bit_mask(field.bit_size)] {
                    d.encode(&mut buf, &path, EncodeInput::Literal(val)).unwrap();
                    let v = d.decode(&buf, &path).unwrap();
                    assert_eq!(decoded_to_u64(&d, &path, v), val, "{} = {}", path, val);
                }
            }
        }
    }
}

#[test]
fn nv_variant_roundtrip_for_every_enum_field() {
    let meta = metadata();
    for d in Descriptor::iter(&meta) {
        let mut buf = [0u8; BUF];
        for item in &block_of(&d).items {
            if writable(item).is_none() {
                continue;
            }
            let Some(fs) = d.fieldset_of(item) else {
                continue;
            };
            for field in &fs.fields {
                let Some(enumm) = field.enumm.as_ref().and_then(|n| d.enumm_named(n)) else {
                    continue;
                };
                let path = format!("{}.{}", item.name, field.name);
                for v in &enumm.variants {
                    d.encode(&mut buf, &path, EncodeInput::Variant(&v.name)).unwrap();
                    let got = d.decode(&buf, &path).unwrap();
                    assert_eq!(decoded_to_u64(&d, &path, got), v.value, "{} := {}", path, v.name);
                }
            }
        }
    }
}

#[test]
fn nv_read_only_entries_reject_writes() {
    let meta = metadata();
    for d in Descriptor::iter(&meta) {
        let mut buf = [0u8; BUF];
        for item in &block_of(&d).items {
            let reg = Descriptor::register_of(item).unwrap();
            if !matches!(reg.access, Access::Read) {
                continue;
            }
            assert_eq!(
                d.encode(&mut buf, &item.name, EncodeInput::Literal(0)),
                Err(EncodeError::ReadOnly),
                "{}.{}",
                d.kind(),
                item.name
            );
        }
    }
}

#[test]
fn nv_out_of_range_literals_rejected() {
    let meta = metadata();
    for d in Descriptor::iter(&meta) {
        let mut buf = [0u8; BUF];
        for item in &block_of(&d).items {
            let Some(reg) = writable(item) else { continue };
            if reg.bit_size >= 64 {
                continue;
            }
            let too_big = 1u64 << reg.bit_size;
            assert_eq!(
                d.encode(&mut buf, &item.name, EncodeInput::Literal(too_big)),
                Err(EncodeError::OutOfRange),
            );
        }
    }
}

#[test]
fn nv_unknown_paths_and_variants_rejected() {
    let meta = metadata();
    for d in Descriptor::iter(&meta) {
        let mut buf = [0u8; BUF];
        assert_eq!(
            d.encode(&mut buf, "__no_entry__", EncodeInput::Literal(0)),
            Err(EncodeError::NoSuchEntry)
        );
        for item in &block_of(&d).items {
            if writable(item).is_none() {
                continue;
            }
            let Some(fs) = d.fieldset_of(item) else {
                continue;
            };
            let bad_field = format!("{}.__no_field__", item.name);
            assert_eq!(
                d.encode(&mut buf, &bad_field, EncodeInput::Literal(0)),
                Err(EncodeError::NoSuchField)
            );
            if let Some(field) = fs.fields.iter().find(|f| f.enumm.is_some()) {
                let path = format!("{}.{}", item.name, field.name);
                assert_eq!(
                    d.encode(&mut buf, &path, EncodeInput::Variant("__no_variant__")),
                    Err(EncodeError::NoSuchVariant)
                );
            }
            break;
        }
    }
}

#[test]
fn nv_validate_passes_after_flushing_every_entry() {
    let meta = metadata();
    for d in Descriptor::iter(&meta) {
        let mut buf = [0u8; BUF];
        flush_writable_entries(&d, &mut buf);
        assert_eq!(d.validate(&buf), Ok(()), "{}", d.kind());
    }
}

#[test]
fn nv_validate_reports_corrupted_complement_entry() {
    let meta = metadata();
    for d in Descriptor::iter(&meta) {
        let block = block_of(&d);
        let pair = block.items.iter().find_map(|item| {
            writable(item)?;
            let sib = block.items.iter().find(|s| is_n_complement(&s.name, &item.name))?;
            Some((item, sib))
        });
        let Some((item, sibling)) = pair else { continue };
        let mut buf = [0u8; BUF];
        flush_writable_entries(&d, &mut buf);
        buf[sibling.byte_offset as usize] ^= 0xff;
        assert_eq!(
            d.validate(&buf),
            Err(ValidationError::ComplementMismatch { entry: item.name.clone() })
        );
    }
}

#[test]
fn nv_validate_buffer_too_short_when_pairs_exist() {
    let meta = metadata();
    for d in Descriptor::iter(&meta) {
        let block = block_of(&d);
        let has_pair = block
            .items
            .iter()
            .any(|item| block.items.iter().any(|s| is_n_complement(&s.name, &item.name)));
        if !has_pair {
            continue;
        }
        assert_eq!(d.validate(&[]), Err(ValidationError::BufferTooShort));
    }
}

#[test]
fn nv_top_level_decode_and_encode_dispatch_by_kind() {
    let meta = metadata();
    for d in Descriptor::iter(&meta) {
        let mut buf = [0u8; BUF];
        for item in &block_of(&d).items {
            let Some(reg) = writable(item) else { continue };
            if reg.bit_size > 64 {
                continue;
            }
            let path = format!("{}.{}", d.kind(), item.name);
            encode(&meta, &path, &mut buf, EncodeInput::Literal(0)).unwrap();
            let v = decode(&meta, &path, &buf).unwrap();
            assert_eq!(decoded_to_u64(&d, &item.name, v), 0);
        }
    }
    assert!(decode(&meta, "__nokind__.x", &[0; BUF]).is_none());
    let mut buf = [0u8; BUF];
    assert_eq!(
        encode(&meta, "__nokind__.x", &mut buf, EncodeInput::Literal(0)),
        Err(EncodeError::NoSuchEntry)
    );
}

#[test]
fn nv_decode_returns_none_on_short_buffer() {
    let meta = metadata();
    for d in Descriptor::iter(&meta) {
        if let Some(item) = block_of(&d).items.first() {
            assert!(d.decode(&[], &item.name).is_none());
        }
    }
}

#[test]
fn nv_reset_produces_buffer_that_validates() {
    let meta = metadata();
    for d in Descriptor::iter(&meta) {
        let mut buf = [0u8; BUF];
        d.reset(&mut buf).unwrap();
        assert_eq!(d.validate(&buf), Ok(()), "{}", d.kind());
    }
}

#[test]
fn nv_reset_writes_each_declared_default() {
    let meta = metadata();
    for d in Descriptor::iter(&meta) {
        let mut buf = [0u8; BUF];
        d.reset(&mut buf).unwrap();
        for (entry, value) in d.defaults() {
            let v = d.decode(&buf, entry).unwrap();
            assert_eq!(decoded_to_u64(&d, entry, v), *value as u64, "{}.{}", d.kind(), entry);
        }
    }
}

#[test]
fn nv_reset_is_noop_when_defaults_empty() {
    let meta = metadata();
    for d in Descriptor::iter(&meta) {
        if !d.defaults().is_empty() {
            continue;
        }
        let mut buf = [0xa5u8; BUF];
        let before = buf;
        d.reset(&mut buf).unwrap();
        assert_eq!(buf, before, "{}", d.kind());
    }
}

#[test]
fn nv_lifecycle_find_list_default_encode_validate() {
    let meta = metadata();
    for d in Descriptor::iter(&meta) {
        let found = Descriptor::find(&meta, d.kind()).unwrap();
        let entries: Vec<_> = found.entries();
        assert!(!entries.is_empty(), "{}", d.kind());

        let mut buf = [0u8; BUF];
        found.reset(&mut buf).unwrap();

        // Phase 1: every declared default is visible after reset.
        for entry in &entries {
            let info = found.describe(entry).unwrap();
            let Some(def) = info.default else { continue };
            let v = found.decode(&buf, entry).unwrap();
            assert_eq!(
                decoded_to_u64(&found, entry, v),
                def,
                "{}.{} default after reset",
                found.kind(),
                entry
            );
        }

        // Phase 2: rewrite each writable entry to default+1 and confirm
        // the buffer still validates after every step.
        for entry in &entries {
            let info = found.describe(entry).unwrap();
            if matches!(info.access, Access::Read) {
                continue;
            }
            let Some(def) = info.default else { continue };
            let max = bit_mask(info.bit_size);
            let new_val = if def == max { 0 } else { def + 1 } & max;
            found.encode(&mut buf, entry, EncodeInput::Literal(new_val)).unwrap();
            let got = found.decode(&buf, entry).unwrap();
            assert_eq!(decoded_to_u64(&found, entry, got), new_val);
            assert_eq!(found.validate(&buf), Ok(()));
        }
    }
}
