//! A non-volatile structure placed in a memory region of a chip description.
use vstd::prelude::*;

verus! {

/// A non-volatile structure: its name, offset in the region, register description (kind, version
/// and block) and the factory defaults of its entries.
#[derive(Clone, Debug, PartialEq, Eq)]
pub struct NvStruct {
    pub name: String,
    pub offset: u32,
    pub kind: String,
    pub version: String,
    pub block: String,
    /// Default values by entry name; no name occurs twice.
    pub defaults: Vec<(String, u32)>,
}

/// The mathematical content of an [`NvStruct`].
pub struct NvStructView {
    pub name: Seq<char>,
    pub offset: u32,
    pub kind: Seq<char>,
    pub version: Seq<char>,
    pub block: Seq<char>,
    pub defaults: Seq<(Seq<char>, u32)>,
}

/// The texts and values of a sequence of named defaults.
pub open spec fn default_views(s: Seq<(String, u32)>) -> Seq<(Seq<char>, u32)> {
    s.map_values(|d: (String, u32)| (d.0@, d.1))
}

/// The views of a sequence of structures.
pub open spec fn nv_struct_views(s: Seq<NvStruct>) -> Seq<NvStructView> {
    s.map_values(|n: NvStruct| n@)
}

impl View for NvStruct {
    type V = NvStructView;

    open spec fn view(&self) -> NvStructView {
        NvStructView {
            name: self.name@,
            offset: self.offset,
            kind: self.kind@,
            version: self.version@,
            block: self.block@,
            defaults: default_views(self.defaults@),
        }
    }
}

} // verus!
