//! Machine-readable data model and runtime helpers for WCH CH32 microcontrollers.
pub mod text;
pub mod search;
pub mod mem_layout;
pub mod nv;
pub mod fmt;
pub mod memory_x_render;
pub mod order;
pub mod chip;
pub mod resolve;
pub mod size;
pub mod generator;
pub mod dump_memory_x;
pub mod nv_descriptors;
