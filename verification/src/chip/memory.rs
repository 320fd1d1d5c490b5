//! Kinds, programming modes and access rights of described memory regions.
use vstd::prelude::*;

verus! {

#[derive(Clone, Copy, Debug, PartialEq, Eq, Structural)]
pub enum Kind {
    Flash,
    Ram,
}

/// A flash programming mode and its granularity.
#[derive(Clone, Copy, Debug, PartialEq, Eq, Structural)]
pub enum Mode {
    Fast { page_size: u32, load_size: u32 },
    Standard { erase_size: u32, write_size: u32 },
}

/// Access rights of a described region.
#[derive(Clone, Copy, Debug, PartialEq, Eq, Structural)]
pub struct Access {
    pub read: bool,
    pub write: bool,
    pub execute: bool,
}

} // verus!
