//! Values read from and written to non-volatile structures, and the errors of those operations.
use vstd::prelude::*;

use super::ir::{Access, Enum};

verus! {

/// Where an entry or field lives and how it is interpreted.
#[derive(Debug, Clone)]
pub struct Info<'a> {
    pub description: Option<String>,
    pub byte_offset: u32,
    pub bit_offset: u32,
    pub bit_size: u32,
    pub access: Access,
    pub enumm: Option<&'a Enum>,
    pub default: Option<u64>,
}

/// The mathematical content of an [`Info`].
pub struct InfoModel {
    pub description: Option<String>,
    pub byte_offset: u32,
    pub bit_offset: u32,
    pub bit_size: u32,
    pub access: Access,
    pub enumm: Option<Enum>,
    pub default: Option<u64>,
}

impl<'a> View for Info<'a> {
    type V = InfoModel;

    open spec fn view(&self) -> InfoModel {
        InfoModel {
            description: self.description,
            byte_offset: self.byte_offset,
            bit_offset: self.bit_offset,
            bit_size: self.bit_size,
            access: self.access,
            enumm: match self.enumm {
                Some(e) => Some(*e),
                None => None,
            },
            default: self.default,
        }
    }
}

/// A decoded value: an enumeration variant, a number, or raw bytes of a wide entry.
#[derive(Debug, Clone, Copy)]
pub enum Value<'a> {
    Variant(&'a str),
    Literal(u64),
    Bytes(&'a [u8]),
}

/// A value to encode: an enumeration variant by name, a number, or raw bytes of a whole entry.
#[derive(Debug, Clone, Copy)]
pub enum EncodeInput<'a> {
    Variant(&'a str),
    Literal(u64),
    Bytes(&'a [u8]),
}

/// The mathematical content of a [`Value`] or an [`EncodeInput`].
pub enum ValueModel {
    Variant(Seq<char>),
    Literal(u64),
    Bytes(Seq<u8>),
}

impl<'a> View for Value<'a> {
    type V = ValueModel;

    open spec fn view(&self) -> ValueModel {
        match self {
            Value::Variant(s) => ValueModel::Variant(s@),
            Value::Literal(v) => ValueModel::Literal(*v),
            Value::Bytes(b) => ValueModel::Bytes(b@),
        }
    }
}

impl<'a> View for EncodeInput<'a> {
    type V = ValueModel;

    open spec fn view(&self) -> ValueModel {
        match self {
            EncodeInput::Variant(s) => ValueModel::Variant(s@),
            EncodeInput::Literal(v) => ValueModel::Literal(*v),
            EncodeInput::Bytes(b) => ValueModel::Bytes(b@),
        }
    }
}

/// Why an encode was refused.
#[derive(Debug, Clone, Copy, PartialEq, Eq, Structural)]
pub enum EncodeError {
    ReadOnly,
    NoSuchEntry,
    NoSuchField,
    NoSuchVariant,
    OutOfRange,
    BufferTooShort,
}

/// Why a buffer failed validation.
#[derive(Debug, Clone, PartialEq, Eq)]
pub enum ValidationError {
    ComplementMismatch { entry: String },
    BufferTooShort,
}

} // verus!
