//! Reading and writing entries and fields of a non-volatile structure inside a byte buffer.
use vstd::prelude::*;

use crate::search::{find_first, find_first_elem, is_first_match, lemma_find_first_is, lemma_find_first_none};
use crate::text::{ascii_lower, char_to_ascii_lower, eq_ignore_ascii_case, split_once_char, str_eq_ignore_ascii_case};

use super::bits::{
    bit_mask, bytes_for_bits, le_bytes, le_value, read_le_word, spec_bit_mask, splice, with_field,
    write_le_word,
};
use super::descriptor::{
    opt_ref, spec_block, spec_describe, spec_entry_field, spec_field_enum, spec_field_in,
    spec_fieldset_of, spec_item, spec_register_of, Descriptor,
};
use super::ir::{Access, BitOffset, BlockItem, EnumVariant, Field, NvStruct, Register};
use super::types::{EncodeError, EncodeInput, InfoModel, Value, ValueModel};

verus! {

/// Number of bytes of a register.
pub open spec fn entry_bytes(reg: Register) -> int {
    bytes_for_bits(reg.bit_size as int)
}

/// `sibling` names the bitwise complement of `source`: `N` followed by `source`, ignoring ASCII case.
pub open spec fn spec_is_n_complement(sibling: Seq<char>, source: Seq<char>) -> bool {
    &&& sibling.len() == source.len() + 1
    &&& ascii_lower(sibling[0]) == 'n'
    &&& eq_ignore_ascii_case(sibling.drop_first(), source)
}

pub open spec fn variant_valued(value: u64) -> spec_fn(EnumVariant) -> bool {
    |v: EnumVariant| v.value == value
}

pub open spec fn variant_named(name: Seq<char>) -> spec_fn(EnumVariant) -> bool {
    |v: EnumVariant| eq_ignore_ascii_case(v.name@, name)
}

/// What decoding yields for a described entry or field, read from `buf`.
pub open spec fn spec_decode_info(info: InfoModel, buf: Seq<u8>) -> Option<ValueModel> {
    let start = info.byte_offset as int;
    if info.bit_size > 64 {
        let end = start + bytes_for_bits(info.bit_size as int);
        if end > buf.len() {
            None
        } else {
            Some(ValueModel::Bytes(buf.subrange(start, end)))
        }
    } else {
        let byte_end = start + bytes_for_bits(info.bit_offset + info.bit_size);
        if byte_end > buf.len() {
            None
        } else {
            let word = le_value(buf.subrange(start, byte_end)) as u64;
            let value = (word >> info.bit_offset) & spec_bit_mask(info.bit_size);
            match info.enumm {
                Some(e) => match find_first_elem(e.variants@, variant_valued(value)) {
                    Some(v) => Some(ValueModel::Variant(v.name@)),
                    None => Some(ValueModel::Literal(value)),
                },
                None => Some(ValueModel::Literal(value)),
            }
        }
    }
}

/// What decoding `path` from `buf` yields.
pub open spec fn spec_decode(nv: NvStruct, buf: Seq<u8>, path: Seq<char>) -> Option<ValueModel> {
    match spec_describe(nv, path) {
        Some(info) => spec_decode_info(info, buf),
        None => None,
    }
}

/// Decoding `path` stays within 64-bit words (otherwise the read would overflow its shifts).
pub open spec fn decode_defined(nv: NvStruct, len: int, path: Seq<char>) -> bool {
    match spec_describe(nv, path) {
        Some(info) => info.bit_size <= 64 && info.byte_offset + bytes_for_bits(
            info.bit_offset + info.bit_size,
        ) <= len ==> info.bit_offset < 64 && info.bit_offset + info.bit_size <= 64,
        None => true,
    }
}

/// The bytes of a whole entry after writing `input` over `dst`.
pub open spec fn spec_write_entry(dst: Seq<u8>, bit_size: u32, input: ValueModel) -> Result<
    Seq<u8>,
    EncodeError,
> {
    match input {
        ValueModel::Bytes(b) => if b.len() != dst.len() {
            Err(EncodeError::OutOfRange)
        } else {
            Ok(b)
        },
        ValueModel::Literal(v) => if bit_size < 64 && v > spec_bit_mask(bit_size) {
            Err(EncodeError::OutOfRange)
        } else {
            Ok(le_bytes(v, dst.len() as int))
        },
        ValueModel::Variant(_) => Err(EncodeError::NoSuchVariant),
    }
}

/// The number that `input` stands for when written into `field`.
pub open spec fn spec_resolve_field_value(nv: NvStruct, field: Field, input: ValueModel) -> Result<
    u64,
    EncodeError,
> {
    match input {
        ValueModel::Variant(name) => match spec_field_enum(nv, field) {
            None => Err(EncodeError::NoSuchVariant),
            Some(e) => match find_first_elem(e.variants@, variant_named(name)) {
                Some(v) => Ok(v.value),
                None => Err(EncodeError::NoSuchVariant),
            },
        },
        ValueModel::Literal(v) => if v > spec_bit_mask(field.bit_size) {
            Err(EncodeError::OutOfRange)
        } else {
            Ok(v)
        },
        ValueModel::Bytes(_) => Err(EncodeError::OutOfRange),
    }
}

/// The bytes covered by a field inside `dst` after setting the field to `value`.
pub open spec fn spec_field_bytes(dst: Seq<u8>, bit_offset: u32, bit_size: u32, value: u64) -> Seq<u8> {
    let t = bytes_for_bits(bit_offset + bit_size);
    le_bytes(with_field(le_value(dst.take(t)) as u64, bit_offset, bit_size, value), t)
}

/// The buffer after writing `input` into the entry or field of `item`, before complements are synced.
pub open spec fn spec_write_target(
    nv: NvStruct,
    buf: Seq<u8>,
    item: BlockItem,
    reg: Register,
    field: Option<Seq<char>>,
    input: ValueModel,
) -> Result<Seq<u8>, EncodeError> {
    let start = item.byte_offset as int;
    let dst = buf.subrange(start, start + entry_bytes(reg));
    match field {
        None => match spec_write_entry(dst, reg.bit_size, input) {
            Ok(bytes) => Ok(splice(buf, start, bytes)),
            Err(e) => Err(e),
        },
        Some(fname) => match spec_fieldset_of(nv, item) {
            None => Err(EncodeError::NoSuchField),
            Some(fs) => match spec_field_in(fs, fname) {
                None => Err(EncodeError::NoSuchField),
                Some(f) => match f.bit_offset {
                    BitOffset::Cursed(_) => Err(EncodeError::NoSuchField),
                    BitOffset::Regular(off) => match spec_resolve_field_value(nv, f, input) {
                        Err(e) => Err(e),
                        Ok(v) => Ok(splice(buf, start, spec_field_bytes(dst, off, f.bit_size, v))),
                    },
                },
            },
        },
    }
}

/// `buf` after `n` bytes at `dst` are set, one after the other, to the complements of the bytes at `src`.
pub open spec fn complement_copy(buf: Seq<u8>, src: int, dst: int, n: int) -> Seq<u8>
    decreases n,
{
    if n <= 0 {
        buf
    } else {
        let b = complement_copy(buf, src, dst, n - 1);
        b.update(dst + n - 1, !b[src + n - 1])
    }
}

/// Predicate: `s` is a register entry of the same size as `item` that holds `item`'s complement.
pub open spec fn complement_of(item: BlockItem) -> spec_fn(BlockItem) -> bool {
    |s: BlockItem|
        {
            &&& spec_is_n_complement(s.name@, item.name@)
            &&& spec_register_of(s) is Some
            &&& spec_register_of(item) is Some
            &&& entry_bytes(spec_register_of(s)->0) == entry_bytes(spec_register_of(item)->0)
        }
}

/// The buffer and result after syncing the complement entry of `item`.
pub open spec fn spec_apply_complement(nv: NvStruct, buf: Seq<u8>, item: BlockItem) -> (
    Seq<u8>,
    Result<(), EncodeError>,
) {
    match spec_block(nv) {
        None => (buf, Ok(())),
        Some(block) => match find_first_elem(block.items@, complement_of(item)) {
            None => (buf, Ok(())),
            Some(sib) => {
                let n = entry_bytes(spec_register_of(item)->0);
                if sib.byte_offset + n > buf.len() {
                    (buf, Err(EncodeError::BufferTooShort))
                } else {
                    (complement_copy(buf, item.byte_offset as int, sib.byte_offset as int, n), Ok(()))
                }
            },
        },
    }
}

/// The buffer and result after encoding `input` at `path`.
pub open spec fn spec_encode(nv: NvStruct, buf: Seq<u8>, path: Seq<char>, input: ValueModel) -> (
    Seq<u8>,
    Result<(), EncodeError>,
) {
    let (entry, field) = spec_entry_field(path);
    match spec_item(nv, entry) {
        None => (buf, Err(EncodeError::NoSuchEntry)),
        Some(item) => match spec_register_of(item) {
            None => (buf, Err(EncodeError::NoSuchEntry)),
            Some(reg) => if reg.access == Access::Read {
                (buf, Err(EncodeError::ReadOnly))
            } else if item.byte_offset + entry_bytes(reg) > buf.len() {
                (buf, Err(EncodeError::BufferTooShort))
            } else {
                match spec_write_target(nv, buf, item, reg, field, input) {
                    Err(e) => (buf, Err(e)),
                    Ok(b) => spec_apply_complement(nv, b, item),
                }
            },
        },
    }
}

/// Encoding `input` at `path` stays within 64-bit words and inside the entry
/// (otherwise the write would overflow its shifts or index past the entry).
pub open spec fn encode_defined(nv: NvStruct, len: int, path: Seq<char>, input: ValueModel) -> bool {
    let (entry, field) = spec_entry_field(path);
    match spec_item(nv, entry) {
        Some(item) => match spec_register_of(item) {
            Some(reg) => (reg.access != Access::Read && item.byte_offset + entry_bytes(reg) <= len)
                ==> match field {
                None => input is Literal ==> reg.bit_size <= 64,
                Some(fname) => match spec_fieldset_of(nv, item) {
                    Some(fs) => match spec_field_in(fs, fname) {
                        Some(f) => match f.bit_offset {
                            BitOffset::Regular(off) => spec_resolve_field_value(nv, f, input) is Ok
                                ==> off < 64 && off + f.bit_size <= 64 && bytes_for_bits(
                                off + f.bit_size,
                            ) <= entry_bytes(reg),
                            BitOffset::Cursed(_) => true,
                        },
                        None => true,
                    },
                    None => true,
                },
            },
            None => true,
        },
        None => true,
    }
}

/// Whether `sibling` names the complement of `source`.
pub fn is_n_complement(sibling: &str, source: &str) -> (r: bool)
    ensures
        r == spec_is_n_complement(sibling@, source@),
{
    let n = sibling.unicode_len();
    let m = source.unicode_len();
    if n == 0 || n - 1 != m {
        return false;
    }
    if char_to_ascii_lower(sibling.get_char(0)) != 'n' {
        return false;
    }
    let mut i: usize = 0;
    while i < m
        invariant
            n == sibling@.len(),
            m == source@.len(),
            n == m + 1,
            i <= m,
            forall|j: int|
                0 <= j < i ==> ascii_lower(#[trigger] sibling@.drop_first()[j]) == ascii_lower(
                    source@[j],
                ),
        decreases m - i,
    {
        if char_to_ascii_lower(sibling.get_char(i + 1)) != char_to_ascii_lower(source.get_char(i)) {
            assert(sibling@.drop_first()[i as int] == sibling@[i + 1]);
            return false;
        }
        assert(sibling@.drop_first()[i as int] == sibling@[i + 1]);
        i += 1;
    }
    true
}

/// The number of bytes that hold `bits` bits, computed without overflow.
fn bytes_for(bits: u64) -> (r: u64)
    requires
        bits <= u32::MAX as u64 + 64,
    ensures
        r == bytes_for_bits(bits as int),
{
    (bits + 7) / 8
}

fn write_entry(buf: &mut [u8], start: usize, size: usize, bit_size: u32, input: EncodeInput)
    -> (r: Result<(), EncodeError>)
    requires
        start + size <= old(buf)@.len(),
        size == bytes_for_bits(bit_size as int),
        input is Literal ==> bit_size <= 64,
    ensures
        final(buf)@.len() == old(buf)@.len(),
        match spec_write_entry(old(buf)@.subrange(start as int, start + size), bit_size, input@) {
            Ok(bytes) => r is Ok && final(buf)@ == splice(old(buf)@, start as int, bytes),
            Err(e) => r == Err::<(), EncodeError>(e) && final(buf)@ == old(buf)@,
        },
{
    let _len = buf.len();
    match input {
        EncodeInput::Bytes(bytes) => {
            if bytes.len() != size {
                return Err(EncodeError::OutOfRange);
            }
            let mut i: usize = 0;
            while i < size
                invariant
                    start + size <= buf@.len(),
                    buf@.len() <= usize::MAX,
                    buf@.len() == old(buf)@.len(),
                    bytes@.len() == size,
                    i <= size,
                    forall|j: int| 0 <= j < i ==> #[trigger] buf@[start + j] == bytes@[j],
                    forall|j: int|
                        0 <= j < buf@.len() && !(start <= j < start + i) ==> #[trigger] buf@[j]
                            == old(buf)@[j],
                decreases size - i,
            {
                buf[start + i] = bytes[i];
                i += 1;
            }
            let ghost sp = splice(old(buf)@, start as int, bytes@);
            assert forall|j: int| 0 <= j < buf@.len() implies #[trigger] buf@[j] == sp[j] by {
                if start <= j < start + size {
                    assert(buf@[start + (j - start)] == bytes@[j - start]);
                }
            }
            assert(buf@ =~= sp);
            Ok(())
        },
        EncodeInput::Literal(val) => {
            if bit_size < 64 && val > bit_mask(bit_size) {
                return Err(EncodeError::OutOfRange);
            }
            write_le_word(buf, start, size, val);
            Ok(())
        },
        EncodeInput::Variant(_) => Err(EncodeError::NoSuchVariant),
    }
}

fn resolve_field_value(field: &Field, desc: &Descriptor, input: EncodeInput) -> (r: Result<
    u64,
    EncodeError,
>)
    ensures
        r == spec_resolve_field_value(*desc.nv, *field, input@),
{
    let max = bit_mask(field.bit_size);
    match input {
        EncodeInput::Variant(name) => {
            let enumm = match desc.field_enum(field) {
                Some(e) => e,
                None => return Err(EncodeError::NoSuchVariant),
            };
            let mut i: usize = 0;
            while i < enumm.variants.len()
                invariant
                    spec_field_enum(*desc.nv, *field) == Some(*enumm),
                    input@ == ValueModel::Variant(name@),
                    i <= enumm.variants@.len(),
                    forall|j: int|
                        0 <= j < i ==> !variant_named(name@)(#[trigger] enumm.variants@[j]),
                decreases enumm.variants@.len() - i,
            {
                if str_eq_ignore_ascii_case(enumm.variants[i].name.as_str(), name) {
                    proof {
                        lemma_find_first_is(enumm.variants@, variant_named(name@), i as int);
                    }
                    return Ok(enumm.variants[i].value);
                }
                i += 1;
            }
            proof {
                lemma_find_first_none(enumm.variants@, variant_named(name@));
            }
            Err(EncodeError::NoSuchVariant)
        },
        EncodeInput::Literal(v) => {
            if v > max {
                Err(EncodeError::OutOfRange)
            } else {
                Ok(v)
            }
        },
        EncodeInput::Bytes(_) => Err(EncodeError::OutOfRange),
    }
}

fn write_field_bits(buf: &mut [u8], start: usize, bit_offset: u32, bit_size: u32, value: u64)
    requires
        bit_offset < 64,
        bit_offset + bit_size <= 64,
        start + bytes_for_bits(bit_offset + bit_size) <= old(buf)@.len(),
    ensures
        final(buf)@.len() == old(buf)@.len(),
        final(buf)@ == splice(
            old(buf)@,
            start as int,
            le_bytes(
                with_field(
                    le_value(
                        old(buf)@.subrange(
                            start as int,
                            start + bytes_for_bits(bit_offset + bit_size),
                        ),
                    ) as u64,
                    bit_offset,
                    bit_size,
                    value,
                ),
                bytes_for_bits(bit_offset + bit_size),
            ),
        ),
{
    let bytes_touched = bytes_for(bit_offset as u64 + bit_size as u64) as usize;
    let raw = read_le_word(buf, start, bytes_touched);
    let mask = bit_mask(bit_size) << bit_offset;
    let word = (raw & !mask) | ((value << bit_offset) & mask);
    write_le_word(buf, start, bytes_touched, word);
}

} // verus!

verus! {

impl<'a> Descriptor<'a> {
    /// Decodes the entry or field named by `path` from `buf`.
    pub fn decode<'b>(&self, buf: &'b [u8], path: &str) -> (r: Option<Value<'b>>)
        where 'a: 'b
        requires
            decode_defined(*self.nv, buf@.len() as int, path@),
        ensures
            match spec_decode(*self.nv, buf@, path@) {
                Some(v) => r matches Some(x) && x@ == v,
                None => r is None,
            },
    {
        let info = match self.describe(path) {
            Some(i) => i,
            None => return None,
        };
        let len = buf.len() as u64;
        let start = info.byte_offset as u64;
        if info.bit_size > 64 {
            let end = start + bytes_for(info.bit_size as u64);
            if end > len {
                return None;
            }
            return Some(Value::Bytes(vstd::slice::slice_subrange(buf, start as usize, end as usize)));
        }
        let byte_end = start + bytes_for(info.bit_offset as u64 + info.bit_size as u64);
        if byte_end > len {
            return None;
        }
        let raw = read_le_word(buf, start as usize, (byte_end - start) as usize);
        let value = (raw >> info.bit_offset) & bit_mask(info.bit_size);
        if let Some(enumm) = info.enumm {
            let ghost expected = match find_first_elem(enumm.variants@, variant_valued(value)) {
                Some(v) => Some(ValueModel::Variant(v.name@)),
                None => Some(ValueModel::Literal(value)),
            };
            assert(spec_decode(*self.nv, buf@, path@) == expected);
            let mut i: usize = 0;
            while i < enumm.variants.len()
                invariant
                    spec_decode(*self.nv, buf@, path@) == expected,
                    expected == match find_first_elem(enumm.variants@, variant_valued(value)) {
                        Some(v) => Some(ValueModel::Variant(v.name@)),
                        None => Some(ValueModel::Literal(value)),
                    },
                    i <= enumm.variants@.len(),
                    forall|j: int|
                        0 <= j < i ==> !variant_valued(value)(#[trigger] enumm.variants@[j]),
                decreases enumm.variants@.len() - i,
            {
                if enumm.variants[i].value == value {
                    proof {
                        lemma_find_first_is(enumm.variants@, variant_valued(value), i as int);
                    }
                    return Some(Value::Variant(enumm.variants[i].name.as_str()));
                }
                i += 1;
            }
            proof {
                lemma_find_first_none(enumm.variants@, variant_valued(value));
            }
        }
        Some(Value::Literal(value))
    }

    /// Sets the complement entry of `item` (its `N`-prefixed sibling of equal size) to the
    /// bitwise complement of `item`'s bytes.
    pub fn apply_complement(&self, buf: &mut [u8], item: &BlockItem) -> (r: Result<(), EncodeError>)
        requires
            spec_register_of(*item) matches Some(reg) ==> item.byte_offset + entry_bytes(reg)
                <= old(buf)@.len(),
        ensures
            (final(buf)@, r) == spec_apply_complement(*self.nv, old(buf)@, *item),
            final(buf)@.len() == old(buf)@.len(),
    {
        let _len = buf.len();
        let block = match self.block() {
            Some(b) => b,
            None => return Ok(()),
        };
        let mut k: usize = 0;
        while k < block.items.len()
            invariant
                spec_block(*self.nv) == Some(*block),
                buf@ == old(buf)@,
                buf@.len() <= usize::MAX,
                spec_register_of(*item) matches Some(reg) ==> item.byte_offset + entry_bytes(reg)
                    <= buf@.len(),
                k <= block.items@.len(),
                forall|j: int| 0 <= j < k ==> !complement_of(*item)(#[trigger] block.items@[j]),
            decreases block.items@.len() - k,
        {
            let sibling = &block.items[k];
            if is_n_complement(sibling.name.as_str(), item.name.as_str()) {
                if let Some(sib_reg) = Self::register_of(sibling) {
                    if let Some(reg) = Self::register_of(item) {
                        let src_size = bytes_for(reg.bit_size as u64);
                        let dst_size = bytes_for(sib_reg.bit_size as u64);
                        if src_size == dst_size {
                            proof {
                                lemma_find_first_is(block.items@, complement_of(*item), k as int);
                            }
                            let src = item.byte_offset as u64;
                            let dst = sibling.byte_offset as u64;
                            if dst + dst_size > buf.len() as u64 {
                                return Err(EncodeError::BufferTooShort);
                            }
                            let n = src_size as usize;
                            let src = src as usize;
                            let dst = dst as usize;
                            let mut i: usize = 0;
                            while i < n
                                invariant
                                    src + n <= old(buf)@.len(),
                                    dst + n <= old(buf)@.len(),
                                    old(buf)@.len() <= usize::MAX,
                                    i <= n,
                                    buf@.len() == old(buf)@.len(),
                                    buf@ == complement_copy(old(buf)@, src as int, dst as int, i as int),
                                decreases n - i,
                            {
                                let b = !buf[src + i];
                                buf[dst + i] = b;
                                i += 1;
                            }
                            return Ok(());
                        }
                    }
                }
            }
            k += 1;
        }
        proof {
            lemma_find_first_none(block.items@, complement_of(*item));
        }
        Ok(())
    }

    /// Writes `input` into the entry or field named by `path`, then re-syncs the entry's complement.
    pub fn encode(&self, buf: &mut [u8], path: &str, input: EncodeInput) -> (r: Result<(), EncodeError>)
        requires
            encode_defined(*self.nv, old(buf)@.len() as int, path@, input@),
        ensures
            (final(buf)@, r) == spec_encode(*self.nv, old(buf)@, path@, input@),
            final(buf)@.len() == old(buf)@.len(),
    {
        let (entry_name, field_name) = match split_once_char(path, '.') {
            Some((e, f)) => (e, Some(f)),
            None => (path, None),
        };
        let item = match self.item(entry_name) {
            Some(i) => i,
            None => return Err(EncodeError::NoSuchEntry),
        };
        let reg = match Self::register_of(item) {
            Some(r) => r,
            None => return Err(EncodeError::NoSuchEntry),
        };
        if reg.access == Access::Read {
            return Err(EncodeError::ReadOnly);
        }
        let entry_start = item.byte_offset as u64;
        let entry_size = bytes_for(reg.bit_size as u64);
        if entry_start + entry_size > buf.len() as u64 {
            return Err(EncodeError::BufferTooShort);
        }
        let start = entry_start as usize;
        let size = entry_size as usize;
        match field_name {
            None => {
                match write_entry(buf, start, size, reg.bit_size, input) {
                    Ok(()) => {},
                    Err(e) => return Err(e),
                }
            },
            Some(fname) => {
                let fs = match self.fieldset_of(item) {
                    Some(f) => f,
                    None => return Err(EncodeError::NoSuchField),
                };
                let field = match Self::field_in(fs, fname) {
                    Some(f) => f,
                    None => return Err(EncodeError::NoSuchField),
                };
                let bit_offset = match &field.bit_offset {
                    BitOffset::Regular(off) => *off,
                    BitOffset::Cursed(_) => return Err(EncodeError::NoSuchField),
                };
                let value = match resolve_field_value(field, self, input) {
                    Ok(v) => v,
                    Err(e) => return Err(e),
                };
                write_field_bits(buf, start, bit_offset, field.bit_size, value);
                proof {
                    let t = bytes_for_bits(bit_offset + field.bit_size);
                    assert(old(buf)@.subrange(start as int, start + size).take(t) =~= old(buf)@.subrange(
                        start as int,
                        start + t,
                    ));
                }
            },
        }
        self.apply_complement(buf, item)
    }
}

} // verus!
