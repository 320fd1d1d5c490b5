//! The text of the files that the generator writes around rendered code: a core's metadata
//! tables and the module that holds them, the metadata file of a chip-and-core, the code and the
//! register description of each block, and the memory table of a variant.
use vstd::prelude::*;

use crate::fmt::{push_debug_quoted, push_str, spec_debug_quote, string_from_chars};
use crate::generator::core_extra::{version_texts, KindVersion};
use crate::generator::pac::{
    pattern_str, pattern_text, regex_replace_all, replace_all_matches, replace_text, spec_replace,
    PacPattern,
};
use crate::text::{spec_starts_with, starts_with};

verus! {

// ---------------------------------------------------------------------------------------------
// Rendered values

/// What the debug rendering of a value becomes in generated code: a top-level slice and every
/// slice in a field are borrowed.
pub open spec fn spec_stringify(debug: Seq<char>) -> Seq<char> {
    let s = if spec_starts_with(debug, "["@) {
        "&"@ + debug
    } else {
        debug
    };
    spec_replace(s, ": ["@, ": &["@)
}

/// What the debug rendering `debug` of a value becomes in generated code.
pub fn stringify_text(debug: &str) -> (r: String)
    ensures
        r@ == spec_stringify(debug@),
{
    proof {
        reveal_strlit("[");
        reveal_strlit(": [");
    }
    if starts_with(debug, "[") {
        let mut out: Vec<char> = Vec::new();
        push_str(&mut out, "&");
        push_str(&mut out, debug);
        let s = string_from_chars(&out);
        proof {
            reveal_strlit("&");
        }
        assert(s@ =~= "&"@ + debug@);
        replace_text(s.as_str(), ": [", ": &[")
    } else {
        replace_text(debug, ": [", ": &[")
    }
}

// ---------------------------------------------------------------------------------------------
// Metadata

/// The tables of a core's metadata, from the rendered peripherals, interrupts and DMA channels.
pub open spec fn spec_metadata_tables(
    peripherals: Seq<char>,
    interrupts: Seq<char>,
    dma_channels: Seq<char>,
) -> Seq<char> {
    "\n                pub(crate) static PERIPHERALS: &[Peripheral] = "@ + peripherals
        + ";\n                pub(crate) static INTERRUPTS: &[Interrupt] = "@ + interrupts
        + ";\n                pub(crate) static DMA_CHANNELS: &[DmaChannel] = "@ + dma_channels
        + ";\n            "@
}

/// The tables of a core's metadata, from the rendered peripherals, interrupts and DMA channels.
pub fn metadata_tables(peripherals: &str, interrupts: &str, dma_channels: &str) -> (r: String)
    ensures
        r@ == spec_metadata_tables(peripherals@, interrupts@, dma_channels@),
{
    let mut out: Vec<char> = Vec::new();
    push_str(&mut out, "\n                pub(crate) static PERIPHERALS: &[Peripheral] = ");
    push_str(&mut out, peripherals);
    push_str(&mut out, ";\n                pub(crate) static INTERRUPTS: &[Interrupt] = ");
    push_str(&mut out, interrupts);
    push_str(&mut out, ";\n                pub(crate) static DMA_CHANNELS: &[DmaChannel] = ");
    push_str(&mut out, dma_channels);
    push_str(&mut out, ";\n            ");
    string_from_chars(&out)
}

/// One module line per block kind and version, pointing at its register description.
pub open spec fn register_lines(vs: Seq<KindVersion>) -> Seq<char>
    decreases vs.len(),
{
    if vs.len() == 0 {
        Seq::empty()
    } else {
        register_lines(vs.drop_last()) + "#[path=\"../registers/"@ + vs.last().0 + "_"@
            + vs.last().1 + ".rs\"] pub mod "@ + vs.last().0 + ";\n"@
    }
}

/// The text with which the register placeholders of the metadata tables are replaced.
pub open spec fn registers_reference() -> Seq<char> {
    "&$1::REGISTERS"@
}

/// The module that holds a core's metadata tables: each quoted register placeholder
/// `":ir_for:kind:"` becomes a reference to that kind's register description, and a module line
/// follows for each block kind and version.
pub open spec fn spec_metadata_module(tables: Seq<char>, vs: Seq<KindVersion>) -> Seq<char> {
    regex_replace_all(pattern_text(PacPattern::IrPlaceholder), tables, registers_reference())
        + register_lines(vs)
}

/// The module that holds a core's metadata tables `tables`, for the block kinds and versions
/// `versions`.
pub fn metadata_module(tables: &str, versions: &Vec<(String, String)>) -> (r: String)
    ensures
        r@ == spec_metadata_module(tables@, version_texts(versions@)),
{
    let pattern = pattern_str(PacPattern::IrPlaceholder);
    proof {
        assert(crate::generator::pac::fixed_pattern(pattern@)) by {
            assert(pattern_text(PacPattern::IrPlaceholder) == pattern@);
        }
    }
    let replaced = replace_all_matches(pattern, tables, "&$1::REGISTERS");
    let mut out: Vec<char> = Vec::new();
    push_str(&mut out, replaced.as_str());
    let ghost vs = version_texts(versions@);
    let ghost head = out@;
    let mut i: usize = 0;
    while i < versions.len()
        invariant
            vs == version_texts(versions@),
            i <= versions@.len(),
            out@ == head + register_lines(vs.take(i as int)),
        decreases versions@.len() - i,
    {
        push_str(&mut out, "#[path=\"../registers/");
        push_str(&mut out, versions[i].0.as_str());
        push_str(&mut out, "_");
        push_str(&mut out, versions[i].1.as_str());
        push_str(&mut out, ".rs\"] pub mod ");
        push_str(&mut out, versions[i].0.as_str());
        push_str(&mut out, ";\n");
        i += 1;
        assert(vs.take(i as int).drop_last() =~= vs.take(i - 1));
        assert(out@ =~= head + register_lines(vs.take(i as int)));
    }
    assert(vs.take(versions@.len() as int) =~= vs);
    string_from_chars(&out)
}

/// The metadata file of a chip-and-core: it takes in the module `file` of its tables, picks its
/// memory module with the attributes `select_attrs`, and describes the chip by its name, family
/// and line, its rendered memory variants `options` and the name of the default variant.
pub open spec fn spec_metadata_rs(
    file: Seq<char>,
    select_attrs: Seq<char>,
    name: Seq<char>,
    family: Seq<char>,
    line: Seq<char>,
    options: Seq<char>,
    default: Seq<char>,
) -> Seq<char> {
    "include!(\"../"@ + file + "\");\n            use crate::metadata::PeripheralRccKernelClock::{Clock, Mux};\n"@
        + select_attrs
        + "            mod memory_select;\n            pub static METADATA: Metadata = Metadata {\n                name: "@
        + spec_debug_quote(name) + ",\n                family: "@ + spec_debug_quote(family)
        + ",\n                line: "@ + spec_debug_quote(line)
        + ",\n                memory: memory_select::MEMORY,\n                memory_options: "@ + options
        + ",\n                default_memory_option: "@ + spec_debug_quote(default)
        + ",\n                peripherals: PERIPHERALS,\n                // nvic_priority_bits: 0,\n                interrupts: INTERRUPTS,\n                dma_channels: DMA_CHANNELS,\n            };"@
}

/// The metadata file of a chip-and-core (see `spec_metadata_rs`).
pub fn metadata_rs(
    file: &str,
    select_attrs: &str,
    name: &str,
    family: &str,
    line: &str,
    options: &str,
    default: &str,
) -> (r: String)
    ensures
        r@ == spec_metadata_rs(file@, select_attrs@, name@, family@, line@, options@, default@),
{
    let mut out: Vec<char> = Vec::new();
    push_str(&mut out, "include!(\"../");
    push_str(&mut out, file);
    push_str(&mut out, "\");\n            use crate::metadata::PeripheralRccKernelClock::{Clock, Mux};\n");
    push_str(&mut out, select_attrs);
    push_str(
        &mut out,
        "            mod memory_select;\n            pub static METADATA: Metadata = Metadata {\n                name: ",
    );
    push_debug_quoted(&mut out, name);
    push_str(&mut out, ",\n                family: ");
    push_debug_quoted(&mut out, family);
    push_str(&mut out, ",\n                line: ");
    push_debug_quoted(&mut out, line);
    push_str(&mut out, ",\n                memory: memory_select::MEMORY,\n                memory_options: ");
    push_str(&mut out, options);
    push_str(&mut out, ",\n                default_memory_option: ");
    push_debug_quoted(&mut out, default);
    push_str(
        &mut out,
        ",\n                peripherals: PERIPHERALS,\n                // nvic_priority_bits: 0,\n                interrupts: INTERRUPTS,\n                dma_channels: DMA_CHANNELS,\n            };",
    );
    string_from_chars(&out)
}

// ---------------------------------------------------------------------------------------------
// Blocks and memory

/// The lint allowances at the top of a block's code.
pub open spec fn peripheral_header() -> Seq<char> {
    "#![allow(clippy::missing_safety_doc)]\n                #![allow(clippy::identity_op)]\n                #![allow(clippy::unnecessary_cast)]\n                #![allow(clippy::erasing_op)]"@
}

/// A block's code file from its rendered code: the lint allowances, then the code with a line
/// break after each attribute and without inner attributes.
pub open spec fn spec_peripheral_file(rendered: Seq<char>) -> Seq<char> {
    peripheral_header() + regex_replace_all(
        pattern_text(PacPattern::InnerAttribute),
        spec_replace(rendered, "] "@, "]\n"@),
        ""@,
    )
}

/// A block's code file from its rendered code `rendered`.
pub fn peripheral_file(rendered: &str) -> (r: String)
    ensures
        r@ == spec_peripheral_file(rendered@),
{
    proof {
        reveal_strlit("] ");
    }
    let data = replace_text(rendered, "] ", "]\n");
    let pattern = pattern_str(PacPattern::InnerAttribute);
    proof {
        assert(crate::generator::pac::fixed_pattern(pattern@)) by {
            assert(pattern_text(PacPattern::InnerAttribute) == pattern@);
        }
    }
    let code = replace_all_matches(pattern, data.as_str(), "");
    let mut out: Vec<char> = Vec::new();
    push_str(
        &mut out,
        "#![allow(clippy::missing_safety_doc)]\n                #![allow(clippy::identity_op)]\n                #![allow(clippy::unnecessary_cast)]\n                #![allow(clippy::erasing_op)]",
    );
    push_str(&mut out, code.as_str());
    string_from_chars(&out)
}

/// A block's register description file: the constant `const_name` with the rendered
/// description `ir`.
pub open spec fn spec_registers_rs(const_name: Seq<char>, ir: Seq<char>) -> Seq<char> {
    "\n                    use crate::metadata::ir::*;\n                    pub(crate) static "@
        + const_name + ": IR = "@ + ir + ";\n                "@
}

/// A block's register description file (see `spec_registers_rs`).
pub fn registers_rs(const_name: &str, ir: &str) -> (r: String)
    ensures
        r@ == spec_registers_rs(const_name@, ir@),
{
    let mut out: Vec<char> = Vec::new();
    push_str(&mut out, "\n                    use crate::metadata::ir::*;\n                    pub(crate) static ");
    push_str(&mut out, const_name);
    push_str(&mut out, ": IR = ");
    push_str(&mut out, ir);
    push_str(&mut out, ";\n                ");
    string_from_chars(&out)
}

/// The memory table of a variant, from its rendered regions.
pub open spec fn spec_memory_rs(regions: Seq<char>) -> Seq<char> {
    "use crate::mem_layout::{Access, MemoryRegion, MemoryRegionKind, MemoryRole::*, Mode::*};\n\npub static MEMORY: &[MemoryRegion] = "@
        + regions + ";\n"@
}

/// The memory table of a variant, from its rendered regions `regions`.
pub fn memory_rs(regions: &str) -> (r: String)
    ensures
        r@ == spec_memory_rs(regions@),
{
    let mut out: Vec<char> = Vec::new();
    push_str(
        &mut out,
        "use crate::mem_layout::{Access, MemoryRegion, MemoryRegionKind, MemoryRole::*, Mode::*};\n\npub static MEMORY: &[MemoryRegion] = ",
    );
    push_str(&mut out, regions);
    push_str(&mut out, ";\n");
    string_from_chars(&out)
}

} // verus!
