//! A chip as the generator reads it: its resolved memory regions and what its memory variants
//! are made from.
use vstd::prelude::*;

use crate::chip::MemoryRamCodeConfig;
use crate::mem_layout::MemoryRegion;

verus! {

/// One chip of the generated data.
pub struct Chip {
    pub name: String,
    pub family: String,
    pub subfamily: String,
    /// The resolved regions, in their order of description.
    pub memory: Vec<MemoryRegion>,
    /// Per-chip region sizes by region name, in ascending name order and each name once (see
    /// [`crate::chip::keys_ascending`], which the functions that read them require).
    pub memory_sizes: Vec<(String, u32)>,
    pub memory_ram_code_config: Option<MemoryRamCodeConfig>,
    /// The memory variant that applies when no feature selects another.
    pub default_memory_option: Option<String>,
}

/// One memory variant: the region sizes and addresses that differ from the chip's.
pub struct MemoryOption {
    pub name: String,
    pub region_sizes: Vec<(String, u32)>,
    pub region_addresses: Vec<(String, u32)>,
}

/// The texts and values of a sequence of named values.
pub open spec fn pair_views(s: Seq<(String, u32)>) -> Seq<(Seq<char>, u32)> {
    s.map_values(|d: (String, u32)| (d.0@, d.1))
}

/// The mathematical content of a [`MemoryOption`].
pub struct MemoryOptionView {
    pub name: Seq<char>,
    pub region_sizes: Seq<(Seq<char>, u32)>,
    pub region_addresses: Seq<(Seq<char>, u32)>,
}

impl View for MemoryOption {
    type V = MemoryOptionView;

    open spec fn view(&self) -> MemoryOptionView {
        MemoryOptionView {
            name: self.name@,
            region_sizes: pair_views(self.region_sizes@),
            region_addresses: pair_views(self.region_addresses@),
        }
    }
}

/// The views of a sequence of memory variants.
pub open spec fn option_views(s: Seq<MemoryOption>) -> Seq<MemoryOptionView> {
    s.map_values(|o: MemoryOption| o@)
}

} // verus!
