//! Peripherals, interrupts and DMA channels of a core.
pub mod peripheral;

use vstd::prelude::*;

verus! {

#[derive(Clone, Debug, PartialEq, Eq)]
pub struct Peripheral {
    pub name: String,
    pub address: u32,
    pub registers: Option<peripheral::Registers>,
    pub rcc: Option<peripheral::Rcc>,
    pub remap: Option<peripheral::Remap>,
    pub pins: Vec<peripheral::Pin>,
    pub interrupts: Option<Vec<peripheral::Interrupt>>,
    pub dma_channels: Vec<peripheral::DmaChannel>,
}

#[derive(Clone, Debug, PartialEq, Eq)]
pub struct Interrupt {
    pub name: String,
    pub number: u8,
}

#[derive(Clone, Debug, PartialEq, Eq)]
pub struct DmaChannels {
    pub name: String,
    pub dma: String,
    pub channel: u8,
}

} // verus!
