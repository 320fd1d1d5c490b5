//! Register blocks, clocks, remaps, pins and signals of a peripheral.
pub mod pin;
pub mod rcc;

use vstd::prelude::*;

verus! {

/// The register description of a peripheral: kind, version and block.
#[derive(Clone, Debug, PartialEq, Eq)]
pub struct Registers {
    pub kind: String,
    pub version: String,
    pub block: String,
}

/// How a peripheral is clocked, enabled and reset.
#[derive(Clone, Debug, PartialEq, Eq)]
pub struct Rcc {
    pub bus_clock: String,
    pub kernel_clock: rcc::KernelClock,
    pub enable: rcc::Enable,
    pub reset: Option<rcc::Reset>,
}

#[derive(Clone, Debug, PartialEq, Eq)]
pub struct Remap {
    pub register: String,
    pub field: String,
}

/// A pin carrying a signal of a peripheral, under an optional remap.
#[derive(Clone, Debug, PartialEq, Eq)]
pub struct Pin {
    pub pin: pin::Pin,
    pub signal: String,
    pub remap: Option<u8>,
}

#[derive(Clone, Debug, PartialEq, Eq)]
pub struct Interrupt {
    pub signal: String,
    pub interrupt: String,
}

#[derive(Clone, Debug, PartialEq, Eq)]
pub struct DmaChannel {
    pub signal: String,
    pub dma: Option<String>,
    pub channel: Option<String>,
    pub dmamux: Option<String>,
    pub request: Option<u8>,
}

} // verus!
