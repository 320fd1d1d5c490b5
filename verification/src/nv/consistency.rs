//! The law that a factory reset leaves a structure internally consistent: every register entry
//! with an `N`-complement entry is complemented there, so the buffer validates.
use vstd::prelude::*;

use crate::search::{find_first, find_first_elem, is_first_match, lemma_find_first_is, lemma_find_first_none};
use crate::text::{ascii_lower, eq_ignore_ascii_case, spec_split_once};

use super::codec::{
    spec_decode, complement_copy, complement_of, encode_defined, entry_bytes, spec_encode, spec_field_bytes, spec_is_n_complement,
    spec_resolve_field_value, spec_write_entry, spec_write_target,
};
use super::bits::{le_bytes, splice};
use super::descriptor::{spec_block, spec_entry_field, spec_field_in, spec_fieldset_of, spec_item, spec_register_of};
use super::ir::{Access, Block, BlockItem, NvStruct};
use super::laws::{
    complement_disjoint, law_encode_syncs_complement, law_entry_literal_roundtrip, lemma_complement_copy_complements, lemma_complement_copy_frame,
    lemma_splice,
};
use super::lifecycle::{
    bytes_complemented, complement_sibling, complements_upto, default_applies, defaults_upto, fill_upto,
    item_fails, lemma_erase_ok, reset_defined, spec_check_item, spec_reset, spec_validate,
};
use super::types::{EncodeError, ValidationError, ValueModel};

verus! {

/// The byte just past a register entry.
pub open spec fn entry_end(item: BlockItem) -> int {
    item.byte_offset + entry_bytes(spec_register_of(item)->0)
}

/// The register entries of `block` take up separate bytes.
pub open spec fn entries_apart(block: Block) -> bool {
    forall|i: int, j: int|
        #![trigger block.items@[i], block.items@[j]]
        0 <= i < block.items@.len() && 0 <= j < block.items@.len() && i != j
            && spec_register_of(block.items@[i]) is Some && spec_register_of(block.items@[j]) is Some
            ==> entry_end(block.items@[i]) <= block.items@[j].byte_offset
            || entry_end(block.items@[j]) <= block.items@[i].byte_offset
}

/// The complement entries of `block` pair up with their register entries: an entry named as the
/// complement of a register entry is a register entry of the same size and has no complement of
/// its own, and no two register entries share a name ignoring ASCII case.
pub open spec fn complements_paired(block: Block) -> bool {
    let s = block.items@;
    &&& forall|i: int, j: int|
        #![trigger s[i], s[j]]
        0 <= i < s.len() && 0 <= j < s.len() && spec_register_of(s[i]) is Some
            && complement_sibling(s[i])(s[j]) ==> complement_of(s[i])(s[j])
    &&& forall|i: int, j: int, m: int|
        #![trigger s[i], s[j], s[m]]
        0 <= i < s.len() && 0 <= j < s.len() && 0 <= m < s.len() && spec_register_of(s[i]) is Some
            && complement_sibling(s[i])(s[j]) ==> !complement_sibling(s[j])(s[m])
    &&& forall|i: int, j: int|
        #![trigger s[i], s[j]]
        0 <= i < s.len() && 0 <= j < s.len() && i != j && spec_register_of(s[i]) is Some
            && spec_register_of(s[j]) is Some ==> !eq_ignore_ascii_case(s[i].name@, s[j].name@)
}

/// The register entries `0..k` lie inside a buffer of length `len`.
pub open spec fn entries_inside(block: Block, k: int, len: int) -> bool {
    forall|j: int|
        0 <= j < k && spec_register_of(#[trigger] block.items@[j]) is Some ==> entry_end(block.items@[j]) <= len
}

/// A successful, defined write of a number keeps the buffer's length.
proof fn lemma_encode_len(nv: NvStruct, b: Seq<u8>, path: Seq<char>, v: u64)
    requires
        spec_encode(nv, b, path, ValueModel::Literal(v)).1 is Ok,
        encode_defined(nv, b.len() as int, path, ValueModel::Literal(v)),
    ensures
        spec_encode(nv, b, path, ValueModel::Literal(v)).0.len() == b.len(),
{
    let input = ValueModel::Literal(v);
    let (entry, field) = spec_entry_field(path);
    let item = spec_item(nv, entry)->0;
    let reg = spec_register_of(item)->0;
    let start = item.byte_offset as int;
    let n = entry_bytes(reg);
    let dst = b.subrange(start, start + n);
    let w = spec_write_target(nv, b, item, reg, field, input)->Ok_0;
    match field {
        None => {
            let bytes = spec_write_entry(dst, reg.bit_size, input)->Ok_0;
            assert(bytes.len() == n);
            lemma_splice(b, start, bytes);
        },
        Some(fname) => {
            let fs = spec_fieldset_of(nv, item)->0;
            let f = spec_field_in(fs, fname)->0;
            let off = f.bit_offset->Regular_0;
            let val = spec_resolve_field_value(nv, f, input)->Ok_0;
            lemma_splice(b, start, spec_field_bytes(dst, off, f.bit_size, val));
        },
    }
    assert(w.len() == b.len());
    match spec_block(nv) {
        None => {},
        Some(block) => match find_first_elem(block.items@, complement_of(item)) {
            None => {},
            Some(sib) => {
                lemma_complement_copy_frame(w, start, sib.byte_offset as int, n);
            },
        },
    }
}

/// Writing the defaults `0..k`, each of them defined, keeps the buffer's length.
proof fn lemma_defaults_len(nv: NvStruct, b1: Seq<u8>, k: int)
    requires
        0 <= k <= nv.defaults@.len(),
        defaults_upto(nv, b1, k).1 is Ok,
        forall|j: int|
            0 <= j < nv.defaults@.len() && #[trigger] defaults_upto(nv, b1, j).1 is Ok
                && default_applies(nv, nv.defaults@[j].0@) ==> encode_defined(
                nv,
                b1.len() as int,
                nv.defaults@[j].0@,
                ValueModel::Literal(nv.defaults@[j].1 as u64),
            ),
    ensures
        defaults_upto(nv, b1, k).0.len() == b1.len(),
    decreases k,
{
    if k > 0 {
        let (b, r) = defaults_upto(nv, b1, k - 1);
        if r is Ok {
            lemma_defaults_len(nv, b1, k - 1);
            let d = nv.defaults@[k - 1];
            if default_applies(nv, d.0@) {
                lemma_encode_len(nv, b, d.0@, d.1 as u64);
            }
        }
    }
}

/// Two entries named as the complement of the same entry have names equal ignoring ASCII case.
proof fn lemma_same_complement_same_name(x: Seq<char>, a: Seq<char>, b: Seq<char>)
    requires
        spec_is_n_complement(x, a),
        spec_is_n_complement(x, b),
    ensures
        eq_ignore_ascii_case(a, b),
{
    assert forall|i: int| 0 <= i < a.len() implies ascii_lower(#[trigger] a[i]) == ascii_lower(b[i]) by {
        assert(ascii_lower(x.drop_first()[i]) == ascii_lower(a[i]));
        assert(ascii_lower(x.drop_first()[i]) == ascii_lower(b[i]));
    }
}

/// Every register entry among `0..k` that has a complement entry is complemented there in `b`.
pub open spec fn complemented_upto(block: Block, b: Seq<u8>, k: int) -> bool {
    forall|j: int|
        0 <= j < k && spec_register_of(#[trigger] block.items@[j]) is Some ==> match find_first(
            block.items@,
            complement_of(block.items@[j]),
        ) {
            None => true,
            Some(q) => bytes_complemented(
                b,
                block.items@[j].byte_offset as int,
                block.items@[q].byte_offset as int,
                entry_bytes(spec_register_of(block.items@[j])->0),
            ),
        }
}

/// Syncing the complements of the entries `0..k` of well-laid-out pairs leaves each of those
/// entries complemented, and keeps the buffer's length.
proof fn lemma_complements(nv: NvStruct, block: Block, b2: Seq<u8>, k: int)
    requires
        spec_block(nv) == Some(block),
        entries_apart(block),
        complements_paired(block),
        0 <= k <= block.items@.len(),
        complements_upto(nv, block, b2, k).1 is Ok,
        entries_inside(block, block.items@.len() as int, b2.len() as int),
    ensures
        complements_upto(nv, block, b2, k).0.len() == b2.len(),
        complemented_upto(block, complements_upto(nv, block, b2, k).0, k),
    decreases k,
{
    if k > 0 {
        let (b, r) = complements_upto(nv, block, b2, k - 1);
        if r is Err {
            assert(complements_upto(nv, block, b2, k) == (b, r));
        } else {
            lemma_complements(nv, block, b2, k - 1);
            let s = block.items@;
            let item = s[k - 1];
            match find_first(s, complement_of(item)) {
                None => {
                    assert(complements_upto(nv, block, b2, k).0 == b);
                },
                Some(q) => {
                    let sib = s[q];
                    let n = entry_bytes(spec_register_of(item)->0);
                    let src = item.byte_offset as int;
                    let dst = sib.byte_offset as int;
                    assert(is_first_match(s, complement_of(item), q));
                    assert(complement_of(item)(sib));
                    assert(q != k - 1);
                    assert(entry_end(item) <= dst || entry_end(sib) <= src);
                    assert(spec_register_of(item) is Some);
                    assert(entry_end(item) <= b.len());
                    lemma_complement_copy_complements(b, src, dst, n);
                    lemma_complement_copy_frame(b, src, dst, n);
                    let nb = complement_copy(b, src, dst, n);
                    assert(complements_upto(nv, block, b2, k).0 == nb);
                    assert forall|j: int|
                        0 <= j < k && spec_register_of(#[trigger] s[j]) is Some implies match find_first(
                            s,
                            complement_of(s[j]),
                        ) {
                            None => true,
                            Some(qj) => bytes_complemented(
                                nb,
                                s[j].byte_offset as int,
                                s[qj].byte_offset as int,
                                entry_bytes(spec_register_of(s[j])->0),
                            ),
                        } by {
                        if j < k - 1 {
                            match find_first(s, complement_of(s[j])) {
                                None => {},
                                Some(qj) => {
                                    assert(is_first_match(s, complement_of(s[j]), qj));
                                    let nj = entry_bytes(spec_register_of(s[j])->0);
                                    let sj = s[j].byte_offset as int;
                                    let dj = s[qj].byte_offset as int;
                                    assert(complement_sibling(s[j])(s[qj]));
                                    assert(j != q) by {
                                        if j == q {
                                            assert(complement_sibling(s[k - 1])(s[j]));
                                            assert(!complement_sibling(s[j])(s[qj]));
                                        }
                                    }
                                    assert(qj != q) by {
                                        if qj == q {
                                            lemma_same_complement_same_name(s[q].name@, s[j].name@, s[k - 1].name@);
                                            assert(!eq_ignore_ascii_case(s[j].name@, s[k - 1].name@));
                                        }
                                    }
                                    assert(entry_end(s[j]) <= dst || entry_end(sib) <= sj);
                                    assert(entry_end(s[qj]) <= dst || entry_end(sib) <= dj);
                                    assert(entry_end(s[j]) <= b.len());
                                    assert(entry_end(s[qj]) <= b.len());
                                    assert forall|i: int| 0 <= i < nj implies #[trigger] nb[dj + i] == !nb[sj + i] by {
                                        assert(nb[dj + i] == b[dj + i]);
                                        assert(nb[sj + i] == b[sj + i]);
                                        assert(b[dj + i] == !b[sj + i]);
                                    }
                                },
                            }
                        }
                    }
                },
            }
        }
    }
}

/// The structure's register entries take up separate bytes and its complement entries pair up
/// with their register entries.
pub open spec fn complements_laid_out(nv: NvStruct) -> bool {
    match spec_block(nv) {
        None => true,
        Some(block) => entries_apart(block) && complements_paired(block),
    }
}

/// No register entry of the structure has a complement entry.
pub open spec fn has_no_pairs(nv: NvStruct) -> bool {
    spec_block(nv) matches Some(block) ==> forall|i: int|
        0 <= i < block.items@.len() && spec_register_of(#[trigger] block.items@[i]) is Some
            ==> find_first(block.items@, complement_sibling(block.items@[i])) is None
}

/// A successful factory reset leaves the buffer internally consistent: every register entry with
/// a complement entry is complemented there, so the buffer validates. Holds where the structure
/// declares defaults (else the reset leaves the buffer as it was) or has no complement pairs, and
/// the register entries take up separate bytes and the complement entries pair up with their
/// register entries.
pub proof fn law_reset_validates(nv: NvStruct, buf: Seq<u8>)
    requires
        reset_defined(nv, buf),
        nv.defaults@.len() > 0 || has_no_pairs(nv),
        complements_laid_out(nv),
        spec_reset(nv, buf).1 is Ok,
    ensures
        spec_validate(nv, spec_reset(nv, buf).0) is Ok,
{
    if nv.defaults@.len() == 0 {
        if let Some(block) = spec_block(nv) {
            let s = block.items@;
            assert forall|j: int| 0 <= j < s.len() implies !item_fails(block, buf)(#[trigger] s[j]) by {
                if spec_register_of(s[j]) is Some {
                    assert(find_first(s, complement_sibling(s[j])) is None);
                }
            }
            lemma_find_first_none(s, item_fails(block, buf));
        }
    } else {
        match spec_block(nv) {
            None => {},
            Some(block) => {
                let s = block.items@;
                let len = s.len() as int;
                let (b1, r1) = fill_upto(nv, block, buf, len);
                lemma_erase_ok(nv, s, 0, buf, len, nv.ir.blocks@.len());
                assert(entries_inside(block, len, buf.len() as int)) by {
                    assert forall|j: int| 0 <= j < len && spec_register_of(#[trigger] s[j]) is Some implies entry_end(s[j]) <= buf.len() by {
                        assert(0 + s[j].byte_offset + entry_bytes(spec_register_of(s[j])->0) <= buf.len());
                    }
                }
                let d = nv.defaults@.len() as int;
                let (b2, r2) = defaults_upto(nv, b1, d);
                lemma_defaults_len(nv, b1, d);
                lemma_complements(nv, block, b2, len);
                let b3 = complements_upto(nv, block, b2, len).0;
                assert(b3 == spec_reset(nv, buf).0);
                assert forall|j: int| 0 <= j < len implies !item_fails(block, b3)(#[trigger] s[j]) by {
                    match spec_register_of(s[j]) {
                        None => {},
                        Some(reg) => match find_first(s, complement_sibling(s[j])) {
                            None => {},
                            Some(q) => {
                                assert(is_first_match(s, complement_sibling(s[j]), q));
                                assert(complement_of(s[j])(s[q]));
                                assert forall|p: int| 0 <= p < q implies !complement_of(s[j])(#[trigger] s[p]) by {
                                    assert(!complement_sibling(s[j])(s[p]));
                                }
                                lemma_find_first_is(s, complement_of(s[j]), q);
                                assert(entry_end(s[j]) <= b3.len());
                                assert(entry_end(s[q]) <= b3.len());
                            },
                        },
                    }
                }
                lemma_find_first_none(s, item_fails(block, b3));
            },
        }
    }
}

/// Changing any byte of the complement entry of a register entry in a buffer that validates
/// makes validation report that entry's complement mismatch. Holds where the register entries
/// take up separate bytes and the complement entries pair up with their register entries.
pub proof fn law_validate_reports_broken_complement(nv: NvStruct, buf: Seq<u8>, i: int, p: int, v: u8)
    requires
        complements_laid_out(nv),
        spec_validate(nv, buf) is Ok,
        spec_block(nv) matches Some(block) && 0 <= i < block.items@.len()
            && spec_register_of(block.items@[i]) is Some
            && find_first(block.items@, complement_sibling(block.items@[i])) is Some
            && 0 <= p < entry_bytes(spec_register_of(block.items@[i])->0),
        ({
            let block = spec_block(nv)->0;
            let q = find_first(block.items@, complement_sibling(block.items@[i]))->0;
            let dst = block.items@[q].byte_offset + p;
            0 <= dst < buf.len() ==> v != buf[dst]
        }),
    ensures
        ({
            let block = spec_block(nv)->0;
            let q = find_first(block.items@, complement_sibling(block.items@[i]))->0;
            spec_validate(nv, buf.update(block.items@[q].byte_offset + p, v))
                == Err::<(), ValidationError>(ValidationError::ComplementMismatch { entry: block.items@[i].name })
        }),
{
    let block = spec_block(nv)->0;
    let s = block.items@;
    let x = s[i];
    let q = find_first(s, complement_sibling(x))->0;
    assert(is_first_match(s, complement_sibling(x), q));
    let sib = s[q];
    let n = entry_bytes(spec_register_of(x)->0);
    let src = x.byte_offset as int;
    let dst = sib.byte_offset as int;
    // In `buf`, every item passes its check.
    assert forall|j: int| 0 <= j < s.len() implies !item_fails(block, buf)(#[trigger] s[j]) by {
        if item_fails(block, buf)(s[j]) {
            crate::search::lemma_find_first_some(s, item_fails(block, buf), j);
        }
    }
    assert(!item_fails(block, buf)(x));
    assert(dst + n <= buf.len());
    assert(src + n <= buf.len());
    assert(complement_of(x)(sib));
    assert(q != i);
    assert(entry_end(x) <= dst || entry_end(sib) <= src);
    let b2 = buf.update(dst + p, v);
    assert(bytes_complemented(buf, src, dst, n));
    assert(buf[dst + p] == !buf[src + p]);
    assert(b2[src + p] == buf[src + p]);
    assert(!bytes_complemented(b2, src, dst, n)) by {
        assert(b2[dst + p] != !b2[src + p]);
    }
    assert(spec_check_item(block, x, b2) == Err::<(), ValidationError>(ValidationError::ComplementMismatch { entry: x.name }));
    // Any other item passes its check in the changed buffer too.
    assert forall|j: int| 0 <= j < s.len() && s[j] != x implies !item_fails(block, b2)(#[trigger] s[j]) by {
        assert(!item_fails(block, buf)(s[j]));
        match spec_register_of(s[j]) {
            None => {},
            Some(rj) => match find_first(s, complement_sibling(s[j])) {
                None => {},
                Some(qj) => {
                    assert(is_first_match(s, complement_sibling(s[j]), qj));
                    assert(j != q) by {
                        if j == q {
                            assert(complement_sibling(s[i])(s[j]));
                            assert(!complement_sibling(s[j])(s[qj]));
                        }
                    }
                    assert(qj != q) by {
                        if qj == q {
                            lemma_same_complement_same_name(s[q].name@, s[j].name@, s[i].name@);
                            if j != i {
                                assert(!eq_ignore_ascii_case(s[j].name@, s[i].name@));
                            }
                        }
                    }
                    assert(complement_of(s[j])(s[qj]));
                    let nj = entry_bytes(rj);
                    let sj = s[j].byte_offset as int;
                    let dj = s[qj].byte_offset as int;
                    assert(entry_end(s[j]) <= dst || entry_end(sib) <= sj);
                    assert(entry_end(s[qj]) <= dst || entry_end(sib) <= dj);
                    assert(sj + nj <= buf.len() && dj + nj <= buf.len());
                    assert(bytes_complemented(buf, sj, dj, nj));
                    assert forall|t: int| 0 <= t < nj implies #[trigger] b2[dj + t] == !b2[sj + t] by {
                        assert(b2[dj + t] == buf[dj + t]);
                        assert(b2[sj + t] == buf[sj + t]);
                    }
                },
            },
        }
    }
    crate::search::lemma_find_first_some(s, item_fails(block, b2), i);
    let k = find_first(s, item_fails(block, b2))->0;
    assert(s[k] == x);
}

/// Two buffers of one length that agree on an entry's bytes decode the entry alike.
proof fn lemma_decode_same_bytes(nv: NvStruct, e: Seq<char>, b1: Seq<u8>, b2: Seq<u8>)
    requires
        spec_split_once(e, '.') is None,
        spec_item(nv, e) matches Some(x) && spec_register_of(x) is Some,
        b1.len() == b2.len(),
        ({
            let x = spec_item(nv, e)->0;
            let start = x.byte_offset as int;
            let end = start + entry_bytes(spec_register_of(x)->0);
            end <= b1.len() ==> b1.subrange(start, end) == b2.subrange(start, end)
        }),
    ensures
        spec_decode(nv, b1, e) == spec_decode(nv, b2, e),
{
    assert(spec_entry_field(e) == (e, None::<Seq<char>>));
}

/// The bytes `lo..hi` lie apart from the bytes of a register entry.
pub open spec fn apart_from(item: BlockItem, lo: int, hi: int) -> bool {
    hi <= item.byte_offset || entry_end(item) <= lo
}

/// Writing a number to an entry leaves the bytes `lo..hi` alone when they lie apart from the
/// entry and from its complement entry, and keeps the buffer's length.
proof fn lemma_encode_frame(nv: NvStruct, b: Seq<u8>, e: Seq<char>, v: u64, lo: int, hi: int)
    requires
        spec_split_once(e, '.') is None,
        spec_encode(nv, b, e, ValueModel::Literal(v)).1 is Ok,
        spec_item(nv, e) matches Some(y) && spec_register_of(y) is Some && apart_from(y, lo, hi)
            && (spec_block(nv) matches Some(block) ==> (find_first_elem(block.items@, complement_of(y)) matches Some(t)
                ==> apart_from(t, lo, hi))),
        0 <= lo,
        entry_bytes(spec_register_of(spec_item(nv, e)->0)->0) <= 8,
    ensures
        spec_encode(nv, b, e, ValueModel::Literal(v)).0.len() == b.len(),
        forall|p: int| lo <= p < hi && p < b.len() ==> #[trigger] spec_encode(nv, b, e, ValueModel::Literal(v)).0[p] == b[p],
{
    assert(spec_entry_field(e) == (e, None::<Seq<char>>));
    let y = spec_item(nv, e)->0;
    let reg = spec_register_of(y)->0;
    let start = y.byte_offset as int;
    let n = entry_bytes(reg);
    let bytes = le_bytes(v, n);
    assert(bytes.len() == n);
    lemma_splice(b, start, bytes);
    let w = splice(b, start, bytes);
    assert(spec_write_target(nv, b, y, reg, None, ValueModel::Literal(v)) == Ok::<Seq<u8>, EncodeError>(w));
    match spec_block(nv) {
        None => {},
        Some(block) => match find_first_elem(block.items@, complement_of(y)) {
            None => {},
            Some(t) => {
                lemma_complement_copy_frame(w, start, t.byte_offset as int, n);
                assert(entry_bytes(spec_register_of(t)->0) == n);
            },
        },
    }
}

/// Syncing the complements of the entries `0..m` leaves alone the bytes of an entry that is no
/// register entry's complement.
proof fn lemma_complements_keep(nv: NvStruct, block: Block, b2: Seq<u8>, m: int, ix: int)
    requires
        spec_block(nv) == Some(block),
        entries_apart(block),
        complements_paired(block),
        0 <= m <= block.items@.len(),
        0 <= ix < block.items@.len(),
        spec_register_of(block.items@[ix]) is Some,
        forall|j: int| 0 <= j < block.items@.len() ==> !complement_sibling(#[trigger] block.items@[j])(block.items@[ix]),
        complements_upto(nv, block, b2, m).1 is Ok,
        entries_inside(block, block.items@.len() as int, b2.len() as int),
    ensures
        complements_upto(nv, block, b2, m).0.len() == b2.len(),
        forall|p: int| block.items@[ix].byte_offset <= p < entry_end(block.items@[ix]) ==>
            #[trigger] complements_upto(nv, block, b2, m).0[p] == b2[p],
    decreases m,
{
    if m > 0 {
        let (b, r) = complements_upto(nv, block, b2, m - 1);
        if r is Err {
            assert(complements_upto(nv, block, b2, m) == (b, r));
        } else {
            lemma_complements_keep(nv, block, b2, m - 1, ix);
            let s = block.items@;
            let item = s[m - 1];
            match find_first(s, complement_of(item)) {
                None => {},
                Some(q) => {
                    assert(is_first_match(s, complement_of(item), q));
                    assert(q != ix) by {
                        if q == ix {
                            assert(complement_sibling(s[m - 1])(s[ix]));
                        }
                    }
                    let n = entry_bytes(spec_register_of(item)->0);
                    assert(entry_end(s[q]) <= s[ix].byte_offset || entry_end(s[ix]) <= s[q].byte_offset);
                    lemma_complement_copy_frame(b, item.byte_offset as int, s[q].byte_offset as int, n);
                    assert(entry_end(s[ix]) <= b.len());
                },
            }
        }
    }
}

/// After a successful reset, every declared default of a writable entry reads back as the
/// declared number. Holds where the register entries take up separate bytes, the complement
/// entries pair up with their register entries, the entry is no register entry's complement,
/// no later default writes the same entry, and the applying defaults name whole entries.
pub proof fn law_reset_writes_default(nv: NvStruct, buf: Seq<u8>, k: int)
    requires
        reset_defined(nv, buf),
        nv.defaults@.len() > 0,
        complements_laid_out(nv),
        spec_reset(nv, buf).1 is Ok,
        0 <= k < nv.defaults@.len(),
        default_applies(nv, nv.defaults@[k].0@),
        forall|j: int|
            k <= j < nv.defaults@.len() && default_applies(nv, #[trigger] nv.defaults@[j].0@)
                ==> spec_split_once(nv.defaults@[j].0@, '.') is None,
        forall|j: int|
            k < j < nv.defaults@.len() && default_applies(nv, #[trigger] nv.defaults@[j].0@)
                ==> spec_item(nv, nv.defaults@[j].0@) != spec_item(nv, nv.defaults@[k].0@),
        spec_block(nv) matches Some(block) && forall|j: int|
            0 <= j < block.items@.len() ==> !complement_sibling(#[trigger] block.items@[j])(
                spec_item(nv, nv.defaults@[k].0@)->0,
            ),
    ensures
        spec_decode(nv, spec_reset(nv, buf).0, nv.defaults@[k].0@) == Some(
            ValueModel::Literal(nv.defaults@[k].1 as u64),
        ),
{
    let block = spec_block(nv)->0;
    let s = block.items@;
    let len = s.len() as int;
    let d = nv.defaults@.len() as int;
    let e = nv.defaults@[k].0@;
    let v = nv.defaults@[k].1 as u64;
    let x = spec_item(nv, e)->0;
    let ix = find_first(s, crate::nv::descriptor::item_named(e))->0;
    assert(is_first_match(s, crate::nv::descriptor::item_named(e), ix));
    assert(s[ix] == x);
    let reg = spec_register_of(x)->0;
    let (b1, r1) = fill_upto(nv, block, buf, len);
    lemma_erase_ok(nv, s, 0, buf, len, nv.ir.blocks@.len());
    assert(entries_inside(block, len, buf.len() as int)) by {
        assert forall|j: int| 0 <= j < len && spec_register_of(#[trigger] s[j]) is Some implies entry_end(s[j]) <= buf.len() by {
            assert(0 + s[j].byte_offset + entry_bytes(spec_register_of(s[j])->0) <= buf.len());
        }
    }
    assert(entry_end(x) <= buf.len());
    // every prefix of the defaults succeeded
    assert forall|j: int| 0 <= j <= d implies #[trigger] defaults_upto(nv, b1, j).1 is Ok by {
        if defaults_upto(nv, b1, j).1 is Err {
            crate::nv::lifecycle::lemma_defaults_err_stays_pub(nv, b1, j, d);
        }
    }
    lemma_defaults_len(nv, b1, d);
    assert forall|j: int| 0 <= j <= d implies #[trigger] defaults_upto(nv, b1, j).0.len() == b1.len() by {
        assert(defaults_upto(nv, b1, j).1 is Ok);
        lemma_defaults_len(nv, b1, j);
    }
    // the write of the default
    let bk = defaults_upto(nv, b1, k).0;
    lemma_defaults_len(nv, b1, k);
    assert(defaults_upto(nv, b1, k + 1) == spec_encode(nv, bk, e, ValueModel::Literal(v)));
    assert(encode_defined(nv, buf.len() as int, e, ValueModel::Literal(v)));
    assert(spec_entry_field(e) == (e, None::<Seq<char>>));
    assert(reg.bit_size <= 64);
    assert(complement_disjoint(nv, x)) by {
        if let Some(sib) = find_first_elem(s, complement_of(x)) {
            let q = find_first(s, complement_of(x))->0;
            assert(is_first_match(s, complement_of(x), q));
            assert(q != ix);
            assert(entry_end(s[ix]) <= s[q].byte_offset || entry_end(s[q]) <= s[ix].byte_offset);
        }
    }
    law_entry_literal_roundtrip(nv, bk, e, v);
    let bk1 = defaults_upto(nv, b1, k + 1).0;
    let lo = x.byte_offset as int;
    let hi = entry_end(x);
    // later defaults leave the entry alone
    assert forall|j: int| k + 1 <= j <= d implies #[trigger] defaults_upto(nv, b1, j).0.subrange(lo, hi) == bk1.subrange(lo, hi) by {
        lemma_later_defaults_keep(nv, block, b1, k, j, ix);
    }
    let b2 = defaults_upto(nv, b1, d).0;
    // the complement phase leaves the entry alone
    lemma_complements_keep(nv, block, b2, len, ix);
    let b3 = complements_upto(nv, block, b2, len).0;
    assert(b3 == spec_reset(nv, buf).0);
    assert(b3.subrange(lo, hi) =~= b2.subrange(lo, hi));
    assert(bk1.len() == b1.len());
    assert(b2.len() == b1.len());
    assert(b2.subrange(lo, hi) == bk1.subrange(lo, hi));
    lemma_decode_same_bytes(nv, e, b3, bk1);
}

/// The defaults after the `k`-th leave the bytes of its entry alone (see
/// [`law_reset_writes_default`] for the conditions).
proof fn lemma_later_defaults_keep(nv: NvStruct, block: Block, b1: Seq<u8>, k: int, j: int, ix: int)
    requires
        spec_block(nv) == Some(block),
        entries_apart(block),
        complements_paired(block),
        0 <= k < j <= nv.defaults@.len(),
        0 <= ix < block.items@.len(),
        spec_item(nv, nv.defaults@[k].0@) == Some(block.items@[ix]),
        spec_register_of(block.items@[ix]) is Some,
        forall|i: int| 0 <= i <= nv.defaults@.len() ==> #[trigger] defaults_upto(nv, b1, i).1 is Ok,
        forall|i: int| 0 <= i <= nv.defaults@.len() ==> #[trigger] defaults_upto(nv, b1, i).0.len() == b1.len(),
        forall|i: int|
            k <= i < nv.defaults@.len() && default_applies(nv, #[trigger] nv.defaults@[i].0@)
                ==> spec_split_once(nv.defaults@[i].0@, '.') is None,
        forall|i: int|
            k < i < nv.defaults@.len() && default_applies(nv, #[trigger] nv.defaults@[i].0@)
                ==> spec_item(nv, nv.defaults@[i].0@) != spec_item(nv, nv.defaults@[k].0@),
        forall|i: int| 0 <= i < block.items@.len() ==> !complement_sibling(#[trigger] block.items@[i])(block.items@[ix]),
        entries_inside(block, block.items@.len() as int, b1.len() as int),
        forall|i: int| 0 <= i < nv.defaults@.len() && #[trigger] defaults_upto(nv, b1, i).1 is Ok
            && default_applies(nv, nv.defaults@[i].0@) ==> encode_defined(
            nv, b1.len() as int, nv.defaults@[i].0@, ValueModel::Literal(nv.defaults@[i].1 as u64)),
    ensures
        defaults_upto(nv, b1, j).0.subrange(block.items@[ix].byte_offset as int, entry_end(block.items@[ix]))
            == defaults_upto(nv, b1, k + 1).0.subrange(block.items@[ix].byte_offset as int, entry_end(block.items@[ix])),
    decreases j - k,
{
    let s = block.items@;
    let lo = s[ix].byte_offset as int;
    let hi = entry_end(s[ix]);
    if j > k + 1 {
        lemma_later_defaults_keep(nv, block, b1, k, j - 1, ix);
        let b = defaults_upto(nv, b1, j - 1).0;
        let dj = nv.defaults@[j - 1];
        if default_applies(nv, dj.0@) {
            let ej = dj.0@;
            let y = spec_item(nv, ej)->0;
            let iy = find_first(s, crate::nv::descriptor::item_named(ej))->0;
            assert(is_first_match(s, crate::nv::descriptor::item_named(ej), iy));
            assert(s[iy] == y);
            assert(iy != ix);
            assert(apart_from(y, lo, hi));
            assert(defaults_upto(nv, b1, j - 1).1 is Ok);
            assert(defaults_upto(nv, b1, j).1 is Ok);
            assert(encode_defined(nv, b1.len() as int, ej, ValueModel::Literal(dj.1 as u64)));
            assert(defaults_upto(nv, b1, j) == spec_encode(nv, b, ej, ValueModel::Literal(dj.1 as u64)));
            assert(spec_entry_field(ej) == (ej, None::<Seq<char>>));
            assert(entry_end(y) <= b1.len());
            if let Some(t) = find_first_elem(s, complement_of(y)) {
                let q = find_first(s, complement_of(y))->0;
                assert(is_first_match(s, complement_of(y), q));
                assert(q != ix) by {
                    if q == ix {
                        assert(complement_sibling(s[iy])(s[ix]));
                    }
                }
                assert(apart_from(t, lo, hi));
            }
            lemma_encode_frame(nv, b, ej, dj.1 as u64, lo, hi);
            assert(entry_end(s[ix]) <= b1.len());
            assert(defaults_upto(nv, b1, j).0.subrange(lo, hi) =~= b.subrange(lo, hi));
        }
    }
}

/// Writing a number to a whole register entry that is no register entry's complement keeps a
/// buffer that validates valid: the entry's own complement entry is synced, and every other pair
/// lies apart from the bytes written. Holds where the register entries take up separate bytes and
/// the complement entries pair up with their register entries; so writing the writable entries
/// of a valid buffer one after another, when the complement entries are read-only, keeps it valid.
pub proof fn law_encode_keeps_validity(nv: NvStruct, buf: Seq<u8>, e: Seq<char>, v: u64)
    requires
        complements_laid_out(nv),
        spec_validate(nv, buf) is Ok,
        spec_split_once(e, '.') is None,
        spec_encode(nv, buf, e, ValueModel::Literal(v)).1 is Ok,
        encode_defined(nv, buf.len() as int, e, ValueModel::Literal(v)),
        spec_block(nv) matches Some(block) && spec_item(nv, e) matches Some(x) && forall|j: int|
            0 <= j < block.items@.len() ==> !complement_sibling(#[trigger] block.items@[j])(x),
    ensures
        spec_validate(nv, spec_encode(nv, buf, e, ValueModel::Literal(v)).0) is Ok,
{
    let block = spec_block(nv)->0;
    let s = block.items@;
    let x = spec_item(nv, e)->0;
    let ix = find_first(s, crate::nv::descriptor::item_named(e))->0;
    assert(is_first_match(s, crate::nv::descriptor::item_named(e), ix));
    assert(s[ix] == x);
    assert(spec_entry_field(e) == (e, None::<Seq<char>>));
    let reg = spec_register_of(x)->0;
    let n = entry_bytes(reg);
    let b2 = spec_encode(nv, buf, e, ValueModel::Literal(v)).0;
    assert(entry_end(x) <= buf.len());
    assert(reg.bit_size <= 64);
    // every item passes its check in `buf`
    assert forall|j: int| 0 <= j < s.len() implies !item_fails(block, buf)(#[trigger] s[j]) by {
        if item_fails(block, buf)(s[j]) {
            crate::search::lemma_find_first_some(s, item_fails(block, buf), j);
        }
    }
    // the entry's complement lies apart from it
    let tq = find_first(s, complement_of(x));
    assert(complement_disjoint(nv, x)) by {
        if let Some(q) = tq {
            assert(is_first_match(s, complement_of(x), q));
            assert(q != ix);
            assert(entry_end(s[ix]) <= s[q].byte_offset || entry_end(s[q]) <= s[ix].byte_offset);
        }
    }
    law_encode_syncs_complement(nv, buf, e, ValueModel::Literal(v));
    lemma_encode_frame(nv, buf, e, v, 0, 0);
    assert(b2.len() == buf.len());
    assert forall|j: int| 0 <= j < s.len() implies !item_fails(block, b2)(#[trigger] s[j]) by {
        assert(!item_fails(block, buf)(s[j]));
        match spec_register_of(s[j]) {
            None => {},
            Some(rj) => match find_first(s, complement_sibling(s[j])) {
                None => {},
                Some(qj) => {
                    assert(is_first_match(s, complement_sibling(s[j]), qj));
                    assert(complement_of(s[j])(s[qj]));
                    let nj = entry_bytes(rj);
                    let sj = s[j].byte_offset as int;
                    let dj = s[qj].byte_offset as int;
                    if s[j] == x {
                        assert forall|p: int| 0 <= p < qj implies !complement_of(x)(#[trigger] s[p]) by {
                            assert(!complement_sibling(s[j])(s[p]));
                        }
                        lemma_find_first_is(s, complement_of(x), qj);
                        assert(bytes_complemented(b2, sj, dj, nj));
                    } else {
                        assert(j != ix);
                        assert(qj != ix) by {
                            if qj == ix {
                                assert(complement_sibling(s[j])(x));
                            }
                        }
                        assert(apart_from(x, sj, sj + nj));
                        assert(apart_from(x, dj, dj + nj));
                        if let Some(q) = tq {
                            assert(is_first_match(s, complement_of(x), q));
                            assert(q != j) by {
                                if q == j {
                                    assert(complement_sibling(x)(s[j]));
                                    assert(complement_sibling(s[ix])(s[j]));
                                    assert(!complement_sibling(s[j])(s[qj]));
                                }
                            }
                            assert(q != qj) by {
                                if q == qj {
                                    lemma_same_complement_same_name(s[q].name@, s[j].name@, x.name@);
                                    assert(!eq_ignore_ascii_case(s[j].name@, s[ix].name@));
                                }
                            }
                            assert(apart_from(s[q], sj, sj + nj));
                            assert(apart_from(s[q], dj, dj + nj));
                            assert(find_first_elem(s, complement_of(x)) == Some(s[q]));
                        }
                        lemma_encode_frame(nv, buf, e, v, sj, sj + nj);
                        lemma_encode_frame(nv, buf, e, v, dj, dj + nj);
                        assert(bytes_complemented(buf, sj, dj, nj));
                        assert forall|t: int| 0 <= t < nj implies #[trigger] b2[dj + t] == !b2[sj + t] by {
                            assert(b2[dj + t] == buf[dj + t]);
                            assert(b2[sj + t] == buf[sj + t]);
                        }
                    }
                },
            },
        }
    }
    lemma_find_first_none(s, item_fails(block, b2));
}

/// The buffer and result after writing `0`, by name, to each writable register entry among the
/// items `0..k` of the block that fits a 64-bit word, in order.
pub open spec fn flush_upto(nv: NvStruct, block: Block, buf: Seq<u8>, k: int) -> (Seq<u8>, Result<(), EncodeError>)
    decreases k,
{
    if k <= 0 {
        (buf, Ok(()))
    } else {
        let (b, r) = flush_upto(nv, block, buf, k - 1);
        if r is Err {
            (b, r)
        } else {
            let item = block.items@[k - 1];
            match spec_register_of(item) {
                Some(reg) => if reg.access != Access::Read && reg.bit_size <= 64 {
                    spec_encode(nv, b, item.name@, ValueModel::Literal(0))
                } else {
                    (b, Ok(()))
                },
                None => (b, Ok(())),
            }
        }
    }
}

/// The pair of the register entry at `j`, if it has a complement entry, is complemented in `b`
/// and lies inside it.
pub open spec fn pair_synced(block: Block, b: Seq<u8>, j: int) -> bool {
    spec_register_of(block.items@[j]) matches Some(reg) ==> match find_first(
        block.items@,
        complement_sibling(block.items@[j]),
    ) {
        None => true,
        Some(q) => {
            &&& entry_end(block.items@[j]) <= b.len()
            &&& block.items@[q].byte_offset + entry_bytes(reg) <= b.len()
            &&& bytes_complemented(b, block.items@[j].byte_offset as int, block.items@[q].byte_offset as int, entry_bytes(reg))
        },
    }
}

/// The writes of a flush keep the structure's pairs in step: complement entries are read-only,
/// entries with a complement entry are writable and fit a 64-bit word, and register entries are
/// named without dots.
pub open spec fn flush_pairs_writable(block: Block) -> bool {
    let s = block.items@;
    &&& forall|i: int, j: int|
        #![trigger s[i], s[j]]
        0 <= i < s.len() && 0 <= j < s.len() && spec_register_of(s[i]) is Some && complement_sibling(s[i])(s[j])
            ==> (spec_register_of(s[j]) matches Some(rj) && rj.access == Access::Read)
    &&& forall|i: int, j: int|
        #![trigger s[i], s[j]]
        0 <= i < s.len() && 0 <= j < s.len() && complement_sibling(s[i])(s[j])
            ==> (spec_register_of(s[i]) matches Some(ri) && ri.access != Access::Read && ri.bit_size <= 64)
    &&& forall|i: int| 0 <= i < s.len() && spec_register_of(#[trigger] s[i]) is Some ==> spec_split_once(s[i].name@, '.') is None
}

/// After the flush of the items `0..k`, the pair of every register entry among them is in step.
proof fn lemma_flush(nv: NvStruct, block: Block, buf: Seq<u8>, k: int)
    requires
        spec_block(nv) == Some(block),
        entries_apart(block),
        complements_paired(block),
        flush_pairs_writable(block),
        0 <= k <= block.items@.len(),
        flush_upto(nv, block, buf, k).1 is Ok,
    ensures
        flush_upto(nv, block, buf, k).0.len() == buf.len(),
        forall|j: int| 0 <= j < k ==> #[trigger] pair_synced(block, flush_upto(nv, block, buf, k).0, j),
    decreases k,
{
    if k > 0 {
        let (b, r) = flush_upto(nv, block, buf, k - 1);
        if r is Err {
            assert(flush_upto(nv, block, buf, k) == (b, r));
        } else {
            lemma_flush(nv, block, buf, k - 1);
            let s = block.items@;
            let x = s[k - 1];
            let b2 = flush_upto(nv, block, buf, k).0;
            match spec_register_of(x) {
                None => {
                    assert(b2 == b);
                    assert(pair_synced(block, b2, k - 1));
                },
                Some(reg) => {
                    if reg.access != Access::Read && reg.bit_size <= 64 {
                        let e = x.name@;
                        assert(spec_split_once(e, '.') is None);
                        assert(spec_entry_field(e) == (e, None::<Seq<char>>));
                        assert(b2 == spec_encode(nv, b, e, ValueModel::Literal(0)).0);
                        // the entry found by its name is this one
                        assert(crate::nv::descriptor::item_named(e)(s[k - 1]));
                        crate::search::lemma_find_first_some(s, crate::nv::descriptor::item_named(e), k - 1);
                        let ix = find_first(s, crate::nv::descriptor::item_named(e))->0;
                        assert(is_first_match(s, crate::nv::descriptor::item_named(e), ix));
                        assert(spec_register_of(s[ix]) is Some);
                        assert(s[ix] == x) by {
                            if ix != k - 1 {
                                assert(!eq_ignore_ascii_case(s[ix].name@, s[k - 1].name@));
                            }
                        }
                        assert(spec_item(nv, e) == Some(x));
                        // no register entry has this entry as its complement
                        assert forall|j: int| 0 <= j < s.len() implies !complement_sibling(#[trigger] s[j])(x) by {
                            if complement_sibling(s[j])(x) {
                                assert(spec_register_of(s[j]) is Some);
                                assert(complement_sibling(s[j])(s[k - 1]));
                            }
                        }
                        let tq = find_first(s, complement_of(x));
                        assert(complement_disjoint(nv, x)) by {
                            if let Some(q) = tq {
                                assert(is_first_match(s, complement_of(x), q));
                                assert(q != k - 1);
                                assert(entry_end(s[k - 1]) <= s[q].byte_offset || entry_end(s[q]) <= s[k - 1].byte_offset);
                            }
                        }
                        assert(encode_defined(nv, b.len() as int, e, ValueModel::Literal(0)));
                        law_encode_syncs_complement(nv, b, e, ValueModel::Literal(0));
                        lemma_encode_frame(nv, b, e, 0, 0, 0);
                        assert(entry_end(x) <= b.len());
                        // this entry's pair
                        assert(pair_synced(block, b2, k - 1)) by {
                            if let Some(qj) = find_first(s, complement_sibling(x)) {
                                assert(is_first_match(s, complement_sibling(x), qj));
                                assert(complement_of(x)(s[qj]));
                                assert forall|p: int| 0 <= p < qj implies !complement_of(x)(#[trigger] s[p]) by {
                                    assert(!complement_sibling(x)(s[p]));
                                }
                                lemma_find_first_is(s, complement_of(x), qj);
                                assert(s[qj].byte_offset + entry_bytes(reg) <= b.len());
                            }
                        }
                        // earlier pairs
                        assert forall|j: int| 0 <= j < k - 1 implies #[trigger] pair_synced(block, b2, j) by {
                            assert(pair_synced(block, b, j));
                            match spec_register_of(s[j]) {
                                None => {},
                                Some(rj) => match find_first(s, complement_sibling(s[j])) {
                                    None => {},
                                    Some(qj) => {
                                        assert(is_first_match(s, complement_sibling(s[j]), qj));
                                        assert(complement_of(s[j])(s[qj]));
                                        let nj = entry_bytes(rj);
                                        let sj = s[j].byte_offset as int;
                                        let dj = s[qj].byte_offset as int;
                                        if s[j] == x {
                                            lemma_encode_frame(nv, b, e, 0, 0, 0);
                                            assert forall|p: int| 0 <= p < qj implies !complement_of(x)(#[trigger] s[p]) by {
                                                assert(!complement_sibling(s[j])(s[p]));
                                            }
                                            lemma_find_first_is(s, complement_of(x), qj);
                                        } else {
                                            assert(j != k - 1);
                                            assert(qj != k - 1) by {
                                                if qj == k - 1 {
                                                    assert(complement_sibling(s[j])(x));
                                                }
                                            }
                                            assert(apart_from(x, sj, sj + nj));
                                            assert(apart_from(x, dj, dj + nj));
                                            if let Some(q) = tq {
                                                assert(is_first_match(s, complement_of(x), q));
                                                assert(q != j) by {
                                                    if q == j {
                                                        assert(complement_sibling(s[k - 1])(s[j]));
                                                        assert(!complement_sibling(s[j])(s[qj]));
                                                    }
                                                }
                                                assert(q != qj) by {
                                                    if q == qj {
                                                        lemma_same_complement_same_name(s[q].name@, s[j].name@, x.name@);
                                                        assert(!eq_ignore_ascii_case(s[j].name@, s[k - 1].name@));
                                                    }
                                                }
                                                assert(apart_from(s[q], sj, sj + nj));
                                                assert(apart_from(s[q], dj, dj + nj));
                                                assert(find_first_elem(s, complement_of(x)) == Some(s[q]));
                                            }
                                            lemma_encode_frame(nv, b, e, 0, sj, sj + nj);
                                            lemma_encode_frame(nv, b, e, 0, dj, dj + nj);
                                            assert forall|t: int| 0 <= t < nj implies #[trigger] b2[dj + t] == !b2[sj + t] by {
                                                assert(b2[dj + t] == b[dj + t]);
                                                assert(b2[sj + t] == b[sj + t]);
                                            }
                                        }
                                    },
                                },
                            }
                        }
                    } else {
                        assert(b2 == b);
                        assert(pair_synced(block, b2, k - 1)) by {
                            if let Some(qj) = find_first(s, complement_sibling(x)) {
                                assert(is_first_match(s, complement_sibling(x), qj));
                                assert(complement_sibling(s[k - 1])(s[qj]));
                            }
                        }
                    }
                },
            }
        }
    }
}

/// Writing `0` to every writable register entry of a structure, one after another by name, leaves
/// any buffer valid. Holds where the register entries take up separate bytes, the complement
/// entries pair up with their register entries and are read-only, the entries with a complement
/// entry are writable and fit a 64-bit word, and register entries are named without dots.
pub proof fn law_flush_validates(nv: NvStruct, buf: Seq<u8>)
    requires
        complements_laid_out(nv),
        spec_block(nv) matches Some(block) && flush_pairs_writable(block)
            && flush_upto(nv, block, buf, block.items@.len() as int).1 is Ok,
    ensures
        spec_validate(nv, flush_upto(nv, spec_block(nv)->0, buf, spec_block(nv)->0.items@.len() as int).0) is Ok,
{
    let block = spec_block(nv)->0;
    let s = block.items@;
    let len = s.len() as int;
    lemma_flush(nv, block, buf, len);
    let b = flush_upto(nv, block, buf, len).0;
    assert forall|j: int| 0 <= j < len implies !item_fails(block, b)(#[trigger] s[j]) by {
        assert(pair_synced(block, b, j));
    }
    lemma_find_first_none(s, item_fails(block, b));
}

} // verus!
