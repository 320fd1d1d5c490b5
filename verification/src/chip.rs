//! The chip description data model: packages, memory, documents and cores of one chip.
pub mod cores;
pub mod memory;
pub mod nv_struct;

use vstd::prelude::*;

verus! {

/// The named sizes are in ascending name order, each name once, as in a map by name.
pub open spec fn keys_ascending(s: Seq<(String, u32)>) -> bool {
    forall|i: int, j: int| 0 <= i < j < s.len() ==> crate::order::text_lt(#[trigger] s[i].0@, #[trigger] s[j].0@)
}

/// One chip: identity, packages, memory (possibly through an include and size overrides),
/// documentation and cores.
#[derive(Clone, Debug, PartialEq, Eq)]
pub struct Chip {
    pub name: String,
    pub family: String,
    pub subfamily: String,
    pub product_type: String,
    pub keywords: Vec<String>,
    pub packages: Vec<Package>,
    pub include_memory: Option<String>,
    pub memory: Vec<Memory>,
    /// Region sizes by region name, in ascending name order and each name once (see
    /// [`keys_ascending`], which the functions that read them require).
    pub memory_sizes: Vec<(String, u32)>,
    pub memory_ram_code_config: Option<MemoryRamCodeConfig>,
    pub docs: Vec<Doc>,
    pub cores: Vec<Core>,
}

#[derive(Clone, Debug, PartialEq, Eq)]
pub struct Package {
    pub name: String,
    pub package: String,
}

/// One memory region of a chip description; kind, address and size may come from elsewhere.
#[derive(Clone, Debug, PartialEq, Eq)]
pub struct Memory {
    pub name: String,
    pub kind: Option<memory::Kind>,
    pub address: Option<u32>,
    pub size: Option<u32>,
    pub modes: Vec<memory::Mode>,
    pub access: Option<memory::Access>,
    pub cores: Option<Vec<String>>,
    pub structs: Vec<nv_struct::NvStruct>,
}

/// The mathematical content of a [`Memory`] region.
pub struct MemoryView {
    pub name: Seq<char>,
    pub kind: Option<memory::Kind>,
    pub address: Option<u32>,
    pub size: Option<u32>,
    pub modes: Seq<memory::Mode>,
    pub access: Option<memory::Access>,
    pub cores: Option<Seq<Seq<char>>>,
    pub structs: Seq<nv_struct::NvStructView>,
}

/// The texts of a sequence of strings.
pub open spec fn string_views(s: Seq<String>) -> Seq<Seq<char>> {
    s.map_values(|t: String| t@)
}

impl View for Memory {
    type V = MemoryView;

    open spec fn view(&self) -> MemoryView {
        MemoryView {
            name: self.name@,
            kind: self.kind,
            address: self.address,
            size: self.size,
            modes: self.modes@,
            access: self.access,
            cores: match self.cores {
                Some(c) => Some(string_views(c@)),
                None => None,
            },
            structs: nv_struct::nv_struct_views(self.structs@),
        }
    }
}

/// The views of a sequence of regions.
pub open spec fn memory_views(s: Seq<Memory>) -> Seq<MemoryView> {
    s.map_values(|m: Memory| m@)
}

/// The code/RAM split options of chips whose SRAM can hold code.
#[derive(Clone, Debug, PartialEq, Eq)]
pub struct MemoryRamCodeConfig {
    pub total_flash: u32,
    pub default: String,
    pub configs: Vec<MemoryRamCodeOption>,
}

/// One code/RAM split.
#[derive(Clone, Debug, PartialEq, Eq)]
pub struct MemoryRamCodeOption {
    pub name: String,
    pub code: u32,
    pub ram: u32,
}

/// A reference document.
#[derive(Clone, Debug, PartialEq, Eq)]
pub struct Doc {
    pub doc_type: String,
    pub title: String,
    pub name: String,
    pub url: String,
}

/// The instruction-set architecture of a core.
#[derive(Copy, Clone, Debug, PartialEq, Eq, Structural)]
pub enum Arch {
    Riscv,
    Arm,
}

/// One core with its peripherals, interrupts and DMA channels.
#[derive(Clone, Debug, PartialEq, Eq)]
pub struct Core {
    pub name: String,
    pub arch: Arch,
    pub peripherals: Vec<cores::Peripheral>,
    pub interrupts: Vec<cores::Interrupt>,
    pub dma_channels: Vec<cores::DmaChannels>,
    pub include_interrupts: Option<String>,
    pub include_dma_channels: Option<Vec<(String, String)>>,
    pub include_peripherals: Option<Vec<String>>,
}

/// The value of access flags that a description leaves out.
pub fn default_true() -> (r: bool)
    ensures
        r,
{
    true
}

} // verus!
