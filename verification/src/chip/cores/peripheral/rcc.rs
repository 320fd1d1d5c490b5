//! Clock, enable and reset control of a peripheral.
use vstd::prelude::*;

verus! {

#[derive(Clone, Debug, PartialEq, Eq)]
pub struct Field {
    pub register: String,
    pub field: String,
}

/// The kernel clock of a peripheral: a named clock, or a mux field.
#[derive(Clone, Debug, PartialEq, Eq)]
pub enum KernelClock {
    Clock(String),
    Mux(Field),
}

#[derive(Clone, Debug, PartialEq, Eq)]
pub struct Enable {
    pub register: String,
    pub field: String,
}

#[derive(Clone, Debug, PartialEq, Eq)]
pub struct Reset {
    pub register: String,
    pub field: String,
}

} // verus!
