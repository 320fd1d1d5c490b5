//! Register-description data of non-volatile structures, and the catalogue of a chip's structures.
use vstd::prelude::*;

use crate::mem_layout::MemoryRegion;

verus! {

/// Access rights of a register.
#[derive(Debug, Clone, Copy, PartialEq, Eq, Structural)]
pub enum Access {
    ReadWrite,
    Read,
    Write,
}

/// All blocks, field sets and enums of one register description.
#[derive(Debug, Clone, PartialEq, Eq)]
pub struct IR {
    pub blocks: Vec<Block>,
    pub fieldsets: Vec<FieldSet>,
    pub enums: Vec<Enum>,
}

/// A named block: an ordered list of items at byte offsets.
#[derive(Debug, Clone, PartialEq, Eq)]
pub struct Block {
    pub name: String,
    pub description: Option<String>,
    pub items: Vec<BlockItem>,
}

/// One entry of a block.
#[derive(Debug, Clone, PartialEq, Eq)]
pub struct BlockItem {
    pub name: String,
    pub description: Option<String>,
    pub byte_offset: u32,
    pub inner: BlockItemInner,
}

/// What a block item is: a register, or a nested block.
#[derive(Debug, Clone, PartialEq, Eq)]
pub enum BlockItemInner {
    Register(Register),
    Block(BlockItemBlock),
}

/// A nested block reference.
#[derive(Debug, Clone, PartialEq, Eq)]
pub struct BlockItemBlock {
    pub block: String,
}

/// A register: its width, access rights and optional field set.
#[derive(Debug, Clone, PartialEq, Eq)]
pub struct Register {
    pub access: Access,
    pub bit_size: u32,
    pub fieldset: Option<String>,
}

/// A named set of bit fields.
#[derive(Debug, Clone, PartialEq, Eq)]
pub struct FieldSet {
    pub name: String,
    pub description: Option<String>,
    pub bit_size: u32,
    pub fields: Vec<Field>,
}

/// A bit field.
#[derive(Debug, Clone, PartialEq, Eq)]
pub struct Field {
    pub name: String,
    pub description: Option<String>,
    pub bit_offset: BitOffset,
    pub bit_size: u32,
    pub enumm: Option<String>,
}

/// Where a field starts: one offset, or a list of (start, end) bit ranges.
#[derive(Debug, Clone, PartialEq, Eq)]
pub enum BitOffset {
    Regular(u32),
    Cursed(Vec<(u32, u32)>),
}

/// A named enumeration of field values.
#[derive(Debug, Clone, PartialEq, Eq)]
pub struct Enum {
    pub name: String,
    pub description: Option<String>,
    pub bit_size: u32,
    pub variants: Vec<EnumVariant>,
}

/// One named value of an enumeration.
#[derive(Debug, Clone, PartialEq, Eq)]
pub struct EnumVariant {
    pub name: String,
    pub description: Option<String>,
    pub value: u64,
}

/// A non-volatile structure: its register description, the block that lays it out, and the
/// factory defaults of its entries.
#[derive(Debug, Clone, PartialEq, Eq)]
pub struct NvStruct {
    pub name: String,
    pub kind: String,
    pub block: String,
    pub ir: IR,
    pub defaults: Vec<(String, u32)>,
}

/// The structures stored in one memory region, named by the region's name.
#[derive(Debug, Clone, PartialEq, Eq)]
pub struct NvStructBinding {
    pub region: String,
    pub structs: Vec<NvStruct>,
}

/// A chip's memory regions and the non-volatile structures bound to them.
#[derive(Debug, Clone, PartialEq, Eq)]
pub struct NvMetadata {
    pub memory: Vec<MemoryRegion>,
    pub nv_structs: Vec<NvStructBinding>,
}

} // verus!
