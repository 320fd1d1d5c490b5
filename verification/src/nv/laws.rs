//! Laws of the non-volatile structure codec: what a read gives back of a write, and how writes keep
//! complement pairs consistent.
use vstd::prelude::*;

use crate::search::{find_first, find_first_elem, is_first_match, lemma_find_first_is};
use crate::mem_layout::MemoryRegion;
use crate::text::{ascii_lower, char_is, eq_ignore_ascii_case, spec_split_once};

use super::bits::{
    bytes_for_bits, le_bytes, le_value, lemma_le_value_of_le_bytes, low_bytes, spec_bit_mask, splice,
    with_field,
};
use super::codec::{
    complement_copy, complement_of, entry_bytes, spec_apply_complement, spec_decode, spec_encode, encode_defined,
    spec_field_bytes, spec_resolve_field_value, spec_write_target, variant_valued,
};
use super::descriptor::{
    kind_named, spec_descriptors,
    spec_block, spec_describe, spec_entry_field, spec_field_enum, spec_field_in, spec_fieldset_of,
    spec_item, spec_register_of,
};
use super::ir::{Access, BitOffset, BlockItem, NvMetadata, NvStruct};
use super::{spec_decode_path, spec_encode_path, spec_find_descriptor};
use super::lifecycle::{bytes_complemented, spec_reset};
use super::types::{EncodeError, ValueModel};

verus! {

/// The complement entry that an encode of `item` syncs, if any, lies apart from `item`'s bytes.
pub open spec fn complement_disjoint(nv: NvStruct, item: BlockItem) -> bool {
    match spec_block(nv) {
        None => true,
        Some(block) => match find_first_elem(block.items@, complement_of(item)) {
            None => true,
            Some(sib) => {
                let n = entry_bytes(spec_register_of(item)->0);
                sib.byte_offset + n <= item.byte_offset || item.byte_offset + n <= sib.byte_offset
            },
        },
    }
}

/// Complementing bytes into `dst..dst+n` leaves every other byte, and the length, unchanged.
pub proof fn lemma_complement_copy_frame(buf: Seq<u8>, src: int, dst: int, n: int)
    requires
        0 <= src,
        0 <= dst,
        src + n <= buf.len(),
        dst + n <= buf.len(),
    ensures
        complement_copy(buf, src, dst, n).len() == buf.len(),
        forall|j: int|
            0 <= j < buf.len() && !(dst <= j < dst + n) ==> #[trigger] complement_copy(
                buf,
                src,
                dst,
                n,
            )[j] == buf[j],
    decreases n,
{
    if n > 0 {
        lemma_complement_copy_frame(buf, src, dst, n - 1);
    }
}

/// With disjoint source and destination, the destination ends up holding the complements of the
/// source bytes.
pub proof fn lemma_complement_copy_complements(buf: Seq<u8>, src: int, dst: int, n: int)
    requires
        0 <= src,
        0 <= dst,
        0 <= n,
        src + n <= buf.len(),
        dst + n <= buf.len(),
        dst + n <= src || src + n <= dst,
    ensures
        bytes_complemented(complement_copy(buf, src, dst, n), src, dst, n),
        forall|i: int| 0 <= i < n ==> #[trigger] complement_copy(buf, src, dst, n)[src + i] == buf[src + i],
    decreases n,
{
    if n > 0 {
        lemma_complement_copy_complements(buf, src, dst, n - 1);
        lemma_complement_copy_frame(buf, src, dst, n - 1);
        lemma_complement_copy_frame(buf, src, dst, n);
    }
}

/// Syncing the complement of `item`, when it lies apart from `item`, leaves `item`'s bytes unchanged.
pub proof fn lemma_apply_complement_keeps_item(nv: NvStruct, buf: Seq<u8>, item: BlockItem)
    requires
        spec_register_of(item) is Some,
        item.byte_offset + entry_bytes(spec_register_of(item)->0) <= buf.len(),
        complement_disjoint(nv, item),
    ensures
        spec_apply_complement(nv, buf, item).0.len() == buf.len(),
        spec_apply_complement(nv, buf, item).0.subrange(
            item.byte_offset as int,
            item.byte_offset + entry_bytes(spec_register_of(item)->0),
        ) == buf.subrange(
            item.byte_offset as int,
            item.byte_offset + entry_bytes(spec_register_of(item)->0),
        ),
{
    let n = entry_bytes(spec_register_of(item)->0);
    let start = item.byte_offset as int;
    match spec_block(nv) {
        None => {},
        Some(block) => match find_first_elem(block.items@, complement_of(item)) {
            None => {},
            Some(sib) => {
                if sib.byte_offset + n <= buf.len() {
                    lemma_complement_copy_frame(buf, start, sib.byte_offset as int, n);
                    assert(spec_apply_complement(nv, buf, item).0.subrange(start, start + n) =~= buf.subrange(
                        start,
                        start + n,
                    ));
                }
            },
        },
    }
}

/// Splicing bytes into a buffer leaves its length unchanged and puts the bytes in place.
pub proof fn lemma_splice(s: Seq<u8>, start: int, bytes: Seq<u8>)
    requires
        0 <= start,
        start + bytes.len() <= s.len(),
    ensures
        splice(s, start, bytes).len() == s.len(),
        splice(s, start, bytes).subrange(start, start + bytes.len()) == bytes,
        forall|j: int|
            0 <= j < s.len() && !(start <= j < start + bytes.len()) ==> #[trigger] splice(
                s,
                start,
                bytes,
            )[j] == s[j],
{
    assert(splice(s, start, bytes).subrange(start, start + bytes.len()) =~= bytes);
}

/// The low bytes of a value that fits in `bit_size` bits, masked to `bit_size` bits, are the value.
proof fn lemma_entry_word(val: u64, bit_size: u32)
    requires
        bit_size <= 64,
        bit_size < 64 ==> val <= spec_bit_mask(bit_size),
    ensures
        (low_bytes(val, bytes_for_bits(bit_size as int)) >> 0u32) & spec_bit_mask(bit_size) == val,
{
    let n = bytes_for_bits(bit_size as int);
    if bit_size == 64 {
        assert(n == 8);
        assert((val >> 0u32) & u64::MAX == val) by (bit_vector);
    } else {
        let m = spec_bit_mask(bit_size);
        assert(m == ((1u64 << bit_size) - 1) as u64);
        let sh: u64 = (8 * n) as u64;
        assert(bit_size <= sh);
        if n >= 8 {
            assert((val >> 0u32) & m == val) by (bit_vector)
                requires
                    bit_size < 64,
                    m == ((1u64 << bit_size) - 1) as u64,
                    val <= m,
            ;
        } else {
            assert(low_bytes(val, n) == val & (((1u64 << sh) - 1) as u64));
            assert(((val & (((1u64 << sh) - 1) as u64)) >> 0u32) & m == val) by (bit_vector)
                requires
                    bit_size < 64,
                    sh < 64,
                    bit_size <= sh,
                    m == ((1u64 << bit_size) - 1) as u64,
                    val <= m,
            ;
        }
    }
}

/// Reading back an entry just written with a number gives that number.
///
/// Holds whenever the write succeeded, the entry fits in a 64-bit word, and the entry's complement
/// (if it has one) lies apart from it.
pub proof fn law_entry_literal_roundtrip(nv: NvStruct, buf: Seq<u8>, entry: Seq<char>, val: u64)
    requires
        spec_split_once(entry, '.') is None,
        spec_encode(nv, buf, entry, ValueModel::Literal(val)).1 is Ok,
        spec_item(nv, entry) matches Some(item) && complement_disjoint(nv, item) && (
        spec_register_of(item) matches Some(reg) && reg.bit_size <= 64),
    ensures
        spec_decode(nv, spec_encode(nv, buf, entry, ValueModel::Literal(val)).0, entry) == Some(
            ValueModel::Literal(val),
        ),
{
    let item = spec_item(nv, entry)->0;
    let reg = spec_register_of(item)->0;
    let start = item.byte_offset as int;
    let n = entry_bytes(reg);
    assert(spec_entry_field(entry) == (entry, None::<Seq<char>>));
    let written = splice(buf, start, le_bytes(val, n));
    assert(le_bytes(val, n).len() == n);
    lemma_splice(buf, start, le_bytes(val, n));
    assert(spec_write_target(nv, buf, item, reg, None, ValueModel::Literal(val)) == Ok::<
        Seq<u8>,
        EncodeError,
    >(written));
    lemma_apply_complement_keeps_item(nv, written, item);
    let after = spec_encode(nv, buf, entry, ValueModel::Literal(val)).0;
    assert(after == spec_apply_complement(nv, written, item).0);
    assert(after.subrange(start, start + n) == le_bytes(val, n));
    lemma_le_value_of_le_bytes(val, n);
    lemma_entry_word(val, reg.bit_size);
}

/// Reading a field back out of the low bytes of a word whose field was just set gives the set
/// value, masked to the field's width.
proof fn lemma_field_readback(w: u64, off: u32, size: u32, v: u64)
    requires
        off < 64,
        off + size <= 64,
    ensures
        (low_bytes(with_field(w, off, size, v), bytes_for_bits(off + size)) >> off) & spec_bit_mask(
            size,
        ) == v & spec_bit_mask(size),
{
    let t = bytes_for_bits(off + size);
    let m = spec_bit_mask(size);
    let x = with_field(w, off, size, v);
    assert(x == (w & !(m << off)) | ((v << off) & (m << off)));
    if size == 64 {
        assert(off == 0);
        assert(t == 8);
        assert(m == u64::MAX);
        assert(((((w & !(m << off)) | ((v << off) & (m << off)))) >> off) & m == v & m) by (bit_vector)
            requires
                off == 0,
                m == u64::MAX,
        ;
    } else {
        assert(m == ((1u64 << size) - 1) as u64);
        if t >= 8 {
            assert(((((w & !(m << off)) | ((v << off) & (m << off)))) >> off) & m == v & m) by (bit_vector)
                requires
                    off < 64,
                    size < 64,
                    off + size <= 64,
                    m == ((1u64 << size) - 1) as u64,
            ;
        } else {
            let sh: u64 = (8 * t) as u64;
            assert(off + size <= sh);
            assert(low_bytes(x, t) == x & (((1u64 << sh) - 1) as u64));
            assert(((((w & !(m << off)) | ((v << off) & (m << off))) & (((1u64 << sh) - 1) as u64))
                >> off) & m == v & m) by (bit_vector)
                requires
                    off < 64,
                    size < 64,
                    sh < 64,
                    off + size <= sh,
                    m == ((1u64 << size) - 1) as u64,
            ;
        }
    }
}

/// What decoding yields for a number read from a field that may refer to an enumeration.
pub open spec fn decoded_field_value(nv: NvStruct, f: super::ir::Field, value: u64) -> ValueModel {
    match spec_field_enum(nv, f) {
        Some(e) => match find_first_elem(e.variants@, variant_valued(value)) {
            Some(v) => ValueModel::Variant(v.name@),
            None => ValueModel::Literal(value),
        },
        None => ValueModel::Literal(value),
    }
}

/// Reading back a field just written gives the number that was written, masked to the field's
/// width (as the matching enumeration variant when the field has one).
///
/// Holds whenever the write succeeded, the field lies inside its entry and a 64-bit word, and the
/// entry's complement (if it has one) lies apart from the entry.
pub proof fn law_field_roundtrip(nv: NvStruct, buf: Seq<u8>, path: Seq<char>, input: ValueModel)
    requires
        spec_split_once(path, '.') is Some,
        spec_encode(nv, buf, path, input).1 is Ok,
        spec_item(nv, spec_entry_field(path).0) matches Some(item) && complement_disjoint(nv, item),
    ensures
        ({
            let item = spec_item(nv, spec_entry_field(path).0)->0;
            let f = spec_field_in(spec_fieldset_of(nv, item)->0, spec_entry_field(path).1->0)->0;
            let v = spec_resolve_field_value(nv, f, input)->Ok_0;
            (f.bit_offset matches BitOffset::Regular(off) && off < 64 && off + f.bit_size <= 64
                && bytes_for_bits(off + f.bit_size) <= entry_bytes(spec_register_of(item)->0)) ==> spec_decode(
                nv,
                spec_encode(nv, buf, path, input).0,
                path,
            ) == Some(decoded_field_value(nv, f, v & spec_bit_mask(f.bit_size)))
        }),
{
    let (entry, field) = spec_entry_field(path);
    let fname = field->0;
    let item = spec_item(nv, entry)->0;
    let reg = spec_register_of(item)->0;
    let fs = spec_fieldset_of(nv, item)->0;
    let f = spec_field_in(fs, fname)->0;
    let v = spec_resolve_field_value(nv, f, input)->Ok_0;
    if let BitOffset::Regular(off) = f.bit_offset {
        if off < 64 && off + f.bit_size <= 64 && bytes_for_bits(off + f.bit_size) <= entry_bytes(reg) {
            let start = item.byte_offset as int;
            let n = entry_bytes(reg);
            let t = bytes_for_bits(off + f.bit_size);
            let dst = buf.subrange(start, start + n);
            let bytes = spec_field_bytes(dst, off, f.bit_size, v);
            let w = le_value(dst.take(t)) as u64;
            assert(bytes == le_bytes(with_field(w, off, f.bit_size, v), t));
            let written = splice(buf, start, bytes);
            lemma_splice(buf, start, bytes);
            assert(spec_write_target(nv, buf, item, reg, field, input) == Ok::<Seq<u8>, EncodeError>(
                written,
            ));
            lemma_apply_complement_keeps_item(nv, written, item);
            let after = spec_encode(nv, buf, path, input).0;
            assert(after == spec_apply_complement(nv, written, item).0);
            assert(after.subrange(start, start + t) =~= written.subrange(start, start + n).subrange(0, t));
            assert(after.subrange(start, start + t) == bytes);
            lemma_le_value_of_le_bytes(with_field(w, off, f.bit_size, v), t);
            lemma_field_readback(w, off, f.bit_size, v);
        }
    }
}

/// After a successful write, the written entry's complement entry (if it has one that lies apart
/// from it) holds the bitwise complement of the entry.
pub proof fn law_encode_syncs_complement(nv: NvStruct, buf: Seq<u8>, path: Seq<char>, input: ValueModel)
    requires
        spec_encode(nv, buf, path, input).1 is Ok,
        encode_defined(nv, buf.len() as int, path, input),
        spec_item(nv, spec_entry_field(path).0) matches Some(item) && complement_disjoint(nv, item),
    ensures
        ({
            let item = spec_item(nv, spec_entry_field(path).0)->0;
            let after = spec_encode(nv, buf, path, input).0;
            spec_block(nv) matches Some(block) && find_first_elem(block.items@, complement_of(item))
                matches Some(sib) ==> bytes_complemented(
                after,
                item.byte_offset as int,
                sib.byte_offset as int,
                entry_bytes(spec_register_of(item)->0),
            )
        }),
{
    let (entry, field) = spec_entry_field(path);
    let item = spec_item(nv, entry)->0;
    let reg = spec_register_of(item)->0;
    let written = spec_write_target(nv, buf, item, reg, field, input)->Ok_0;
    let n = entry_bytes(reg);
    let start = item.byte_offset as int;
    if let Some(block) = spec_block(nv) {
        if let Some(sib) = find_first_elem(block.items@, complement_of(item)) {
            assert(written.len() == buf.len()) by {
                match field {
                    None => {
                        let dst = buf.subrange(start, start + n);
                        lemma_splice(buf, start, super::codec::spec_write_entry(dst, reg.bit_size, input)->Ok_0);
                    },
                    Some(fname) => {
                        let fs = spec_fieldset_of(nv, item)->0;
                        let f = spec_field_in(fs, fname)->0;
                        let off = f.bit_offset->Regular_0;
                        let v = spec_resolve_field_value(nv, f, input)->Ok_0;
                        let dst = buf.subrange(start, start + n);
                        lemma_splice(buf, start, spec_field_bytes(dst, off, f.bit_size, v));
                    },
                }
            }
            lemma_complement_copy_complements(written, start, sib.byte_offset as int, n);
        }
    }
}

/// Looking a descriptor up by its own kind finds it again, when no two descriptors share a kind
/// ignoring ASCII case.
pub proof fn law_find_by_own_kind(meta: NvMetadata, i: int)
    requires
        0 <= i < spec_descriptors(meta).len(),
        forall|a: int, b: int|
            0 <= a < b < spec_descriptors(meta).len() ==> !eq_ignore_ascii_case(
                #[trigger] spec_descriptors(meta)[a].1.kind@,
                #[trigger] spec_descriptors(meta)[b].1.kind@,
            ),
    ensures
        spec_find_descriptor(meta, spec_descriptors(meta)[i].1.kind@) == Some(spec_descriptors(meta)[i]),
{
    let ds = spec_descriptors(meta);
    let kind = ds[i].1.kind@;
    assert(kind_named(kind)(ds[i]));
    assert forall|j: int| 0 <= j < i implies !kind_named(kind)(#[trigger] ds[j]) by {
        assert(!eq_ignore_ascii_case(ds[j].1.kind@, ds[i].1.kind@));
    }
    lemma_find_first_is(ds, kind_named(kind), i);
}

/// Two kinds that differ only in ASCII case find the same descriptor.
pub proof fn law_find_ignores_case(meta: NvMetadata, a: Seq<char>, b: Seq<char>)
    requires
        eq_ignore_ascii_case(a, b),
    ensures
        spec_find_descriptor(meta, a) == spec_find_descriptor(meta, b),
{
    assert forall|d: (MemoryRegion, NvStruct)| #[trigger] kind_named(a)(d) == kind_named(b)(d) by {
        if eq_ignore_ascii_case(d.1.kind@, a) {
            assert forall|k: int| 0 <= k < d.1.kind@.len() implies ascii_lower(#[trigger] d.1.kind@[k])
                == ascii_lower(b[k]) by {
                assert(ascii_lower(d.1.kind@[k]) == ascii_lower(a[k]));
            }
        }
        if eq_ignore_ascii_case(d.1.kind@, b) {
            assert forall|k: int| 0 <= k < d.1.kind@.len() implies ascii_lower(#[trigger] d.1.kind@[k])
                == ascii_lower(a[k]) by {
                assert(ascii_lower(d.1.kind@[k]) == ascii_lower(b[k]));
            }
        }
    }
    assert(kind_named(a) =~= kind_named(b));
}

/// A path made of a kind without dots, a dot, and the rest decodes as the rest does in the
/// descriptor of that kind.
pub proof fn law_decode_dispatches_by_kind(meta: NvMetadata, kind: Seq<char>, rest: Seq<char>, buf: Seq<u8>)
    requires
        forall|i: int| 0 <= i < kind.len() ==> kind[i] != '.',
    ensures
        spec_decode_path(meta, kind + seq!['.'] + rest, buf) == match spec_find_descriptor(meta, kind) {
            Some(d) => spec_decode(d.1, buf, rest),
            None => None,
        },
        spec_encode_path(meta, kind + seq!['.'] + rest, buf, ValueModel::Literal(0)).1 is Err
            <== spec_find_descriptor(meta, kind) is None,
{
    let path = kind + seq!['.'] + rest;
    assert(path[kind.len() as int] == '.');
    assert forall|j: int| 0 <= j < kind.len() implies !char_is('.')(#[trigger] path[j]) by {
        assert(path[j] == kind[j]);
    }
    lemma_find_first_is(path, char_is('.'), kind.len() as int);
    assert(path.take(kind.len() as int) =~= kind);
    assert(path.skip(kind.len() as int + 1) =~= rest);
}

/// A structure without declared defaults is left untouched by a reset.
pub proof fn law_reset_without_defaults_is_noop(nv: NvStruct, buf: Seq<u8>)
    requires
        nv.defaults@.len() == 0,
    ensures
        spec_reset(nv, buf) == (buf, Ok::<(), EncodeError>(())),
{
}

} // verus!
