//! Path-based access (`descriptor.entry[.field]`) to non-volatile structures such as option bytes.
pub mod bits;
pub mod codec;
pub mod consistency;
pub mod descriptor;
pub mod ir;
pub mod laws;
pub mod lifecycle;
pub mod types;

use vstd::prelude::*;

use crate::mem_layout::MemoryRegion;
use crate::search::find_first_elem;
use crate::text::{spec_split_once, split_once_char};

use codec::{decode_defined, encode_defined, spec_decode, spec_encode};
use descriptor::{bindings_resolve, kind_named, spec_descriptors, Descriptor};
use ir::{NvMetadata, NvStruct};
use types::{EncodeError, EncodeInput, Value, ValueModel};

verus! {

/// The descriptor that a kind names, matched ignoring ASCII case.
pub open spec fn spec_find_descriptor(meta: NvMetadata, kind: Seq<char>) -> Option<
    (MemoryRegion, NvStruct),
> {
    find_first_elem(spec_descriptors(meta), kind_named(kind))
}

/// What decoding `kind.entry[.field]` yields.
pub open spec fn spec_decode_path(meta: NvMetadata, path: Seq<char>, buf: Seq<u8>) -> Option<
    ValueModel,
> {
    match spec_split_once(path, '.') {
        None => None,
        Some((kind, rest)) => match spec_find_descriptor(meta, kind) {
            None => None,
            Some(d) => spec_decode(d.1, buf, rest),
        },
    }
}

/// The buffer and result after encoding at `kind.entry[.field]`.
pub open spec fn spec_encode_path(meta: NvMetadata, path: Seq<char>, buf: Seq<u8>, input: ValueModel) -> (
    Seq<u8>,
    Result<(), EncodeError>,
) {
    match spec_split_once(path, '.') {
        None => (buf, Err(EncodeError::NoSuchEntry)),
        Some((kind, rest)) => match spec_find_descriptor(meta, kind) {
            None => (buf, Err(EncodeError::NoSuchEntry)),
            Some(d) => spec_encode(d.1, buf, rest, input),
        },
    }
}

/// Decodes `kind.entry[.field]` from `buf`, looking the descriptor up by kind.
pub fn decode<'m, 'b>(meta: &'m NvMetadata, path: &str, buf: &'b [u8]) -> (r: Option<Value<'b>>)
    where 'm: 'b
    requires
        bindings_resolve(*meta),
        spec_split_once(path@, '.') matches Some((kind, rest)) ==> (spec_find_descriptor(
            *meta,
            kind,
        ) matches Some(d) ==> decode_defined(d.1, buf@.len() as int, rest)),
    ensures
        match spec_decode_path(*meta, path@, buf@) {
            Some(v) => r matches Some(x) && x@ == v,
            None => r is None,
        },
{
    let (kind, rest) = match split_once_char(path, '.') {
        Some(p) => p,
        None => return None,
    };
    match Descriptor::find(meta, kind) {
        Some(d) => d.decode(buf, rest),
        None => None,
    }
}

/// Encodes `input` at `kind.entry[.field]` in `buf`, looking the descriptor up by kind.
pub fn encode(meta: &NvMetadata, path: &str, buf: &mut [u8], input: EncodeInput) -> (r: Result<
    (),
    EncodeError,
>)
    requires
        bindings_resolve(*meta),
        spec_split_once(path@, '.') matches Some((kind, rest)) ==> (spec_find_descriptor(
            *meta,
            kind,
        ) matches Some(d) ==> encode_defined(d.1, old(buf)@.len() as int, rest, input@)),
    ensures
        (final(buf)@, r) == spec_encode_path(*meta, path@, old(buf)@, input@),
{
    let (kind, rest) = match split_once_char(path, '.') {
        Some(p) => p,
        None => return Err(EncodeError::NoSuchEntry),
    };
    match Descriptor::find(meta, kind) {
        Some(d) => d.encode(buf, rest, input),
        None => Err(EncodeError::NoSuchEntry),
    }
}

} // verus!
