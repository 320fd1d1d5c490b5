//! Consistency checks and factory reset of non-volatile structures.
use vstd::prelude::*;

use crate::search::{find_first, find_first_elem, is_first_match, lemma_find_first_is, lemma_find_first_none};

use super::bits::splice;
use super::codec::{
    complement_of, encode_defined, entry_bytes, is_n_complement, spec_apply_complement, spec_encode,
    spec_is_n_complement,
};
use super::descriptor::{block_named, opt_ref, spec_block, spec_item, spec_register_of, Descriptor};
use super::ir::{Access, Block, BlockItem, BlockItemInner, NvStruct};
use super::types::{EncodeError, EncodeInput, ValidationError, ValueModel};

verus! {

/// Predicate: `s` is named as the complement of `item`.
pub open spec fn complement_sibling(item: BlockItem) -> spec_fn(BlockItem) -> bool {
    |s: BlockItem| spec_is_n_complement(s.name@, item.name@)
}

/// The bytes at `dst` are the bitwise complements of the `n` bytes at `src`.
pub open spec fn bytes_complemented(buf: Seq<u8>, src: int, dst: int, n: int) -> bool {
    forall|i: int| 0 <= i < n ==> #[trigger] buf[dst + i] == !buf[src + i]
}

/// The check of one item: a register item whose complement sibling exists must be complemented there.
pub open spec fn spec_check_item(block: Block, item: BlockItem, buf: Seq<u8>) -> Result<
    (),
    ValidationError,
> {
    match spec_register_of(item) {
        None => Ok(()),
        Some(reg) => {
            let n = entry_bytes(reg);
            match find_first_elem(block.items@, complement_sibling(item)) {
                None => Ok(()),
                Some(sib) => {
                    let src = item.byte_offset as int;
                    let dst = sib.byte_offset as int;
                    if src + n > buf.len() || dst + n > buf.len() {
                        Err(ValidationError::BufferTooShort)
                    } else if !bytes_complemented(buf, src, dst, n) {
                        Err(ValidationError::ComplementMismatch { entry: item.name })
                    } else {
                        Ok(())
                    }
                },
            }
        },
    }
}

pub open spec fn item_fails(block: Block, buf: Seq<u8>) -> spec_fn(BlockItem) -> bool {
    |it: BlockItem| spec_check_item(block, it, buf) is Err
}

/// The result of validating `buf`: the error of the first item that fails its check.
pub open spec fn spec_validate(nv: NvStruct, buf: Seq<u8>) -> Result<(), ValidationError> {
    match spec_block(nv) {
        None => Ok(()),
        Some(block) => match find_first_elem(block.items@, item_fails(block, buf)) {
            Some(it) => spec_check_item(block, it, buf),
            None => Ok(()),
        },
    }
}

/// The buffer and result after erasing (filling with `0xFF`) the items `0..k` of a block whose
/// offsets count from `base`: a register entry becomes `0xFF` bytes, and a nested block is erased
/// the same way at its offset, down to `depth` more levels of nesting. An entry that ends, or a
/// nested block that starts, beyond the buffer stops the erase; a nested block whose description
/// is not found is left as it is.
pub open spec fn erase_items(
    nv: NvStruct,
    items: Seq<BlockItem>,
    base: int,
    buf: Seq<u8>,
    k: int,
    depth: nat,
) -> (Seq<u8>, Result<(), EncodeError>)
    decreases depth, k,
{
    if k <= 0 {
        (buf, Ok(()))
    } else {
        let (b, r) = erase_items(nv, items, base, buf, k - 1, depth);
        if r is Err {
            (b, r)
        } else {
            let item = items[k - 1];
            let start = base + item.byte_offset;
            match item.inner {
                BlockItemInner::Register(reg) => {
                    let n = entry_bytes(reg);
                    if start + n > b.len() {
                        (b, Err(EncodeError::BufferTooShort))
                    } else {
                        (splice(b, start, Seq::new(n as nat, |i: int| 0xFFu8)), Ok(()))
                    }
                },
                BlockItemInner::Block(nested) => if depth == 0 {
                    (b, Ok(()))
                } else if start > b.len() {
                    (b, Err(EncodeError::BufferTooShort))
                } else {
                    match find_first_elem(nv.ir.blocks@, block_named(nested.block@)) {
                        None => (b, Ok(())),
                        Some(nb) => erase_items(nv, nb.items@, start, b, nb.items@.len() as int, (depth - 1) as nat),
                    }
                },
            }
        }
    }
}

/// The buffer and result after erasing the items `0..k` of the structure's block, with nested
/// blocks down to as many levels as the description has blocks (deeper nesting would repeat a
/// block).
pub open spec fn fill_upto(nv: NvStruct, block: Block, buf: Seq<u8>, k: int) -> (Seq<u8>, Result<(), EncodeError>) {
    erase_items(nv, block.items@, 0, buf, k, nv.ir.blocks@.len())
}

/// A declared default is written: it names a register entry that is not read-only.
pub open spec fn default_applies(nv: NvStruct, name: Seq<char>) -> bool {
    match spec_item(nv, name) {
        Some(item) => match spec_register_of(item) {
            Some(reg) => reg.access != Access::Read,
            None => false,
        },
        None => false,
    }
}

/// The buffer and result after writing the declared defaults `0..k`.
pub open spec fn defaults_upto(nv: NvStruct, buf: Seq<u8>, k: int) -> (Seq<u8>, Result<(), EncodeError>)
    decreases k,
{
    if k <= 0 {
        (buf, Ok(()))
    } else {
        let (b, r) = defaults_upto(nv, buf, k - 1);
        if r is Err {
            (b, r)
        } else {
            let d = nv.defaults@[k - 1];
            if default_applies(nv, d.0@) {
                spec_encode(nv, b, d.0@, ValueModel::Literal(d.1 as u64))
            } else {
                (b, Ok(()))
            }
        }
    }
}

/// The buffer and result after syncing the complements of items `0..k`.
pub open spec fn complements_upto(nv: NvStruct, block: Block, buf: Seq<u8>, k: int) -> (
    Seq<u8>,
    Result<(), EncodeError>,
)
    decreases k,
{
    if k <= 0 {
        (buf, Ok(()))
    } else {
        let (b, r) = complements_upto(nv, block, buf, k - 1);
        if r is Err {
            (b, r)
        } else {
            spec_apply_complement(nv, b, block.items@[k - 1])
        }
    }
}

/// The buffer and result of a factory reset: erase every item of the block (register entries, and
/// nested blocks item by item), write every applicable default, then sync every complement;
/// nothing happens when no defaults are declared.
pub open spec fn spec_reset(nv: NvStruct, buf: Seq<u8>) -> (Seq<u8>, Result<(), EncodeError>) {
    if nv.defaults@.len() == 0 {
        (buf, Ok(()))
    } else {
        match spec_block(nv) {
            None => (buf, Ok(())),
            Some(block) => {
                let (b1, r1) = fill_upto(nv, block, buf, block.items@.len() as int);
                if r1 is Err {
                    (b1, r1)
                } else {
                    let (b2, r2) = defaults_upto(nv, b1, nv.defaults@.len() as int);
                    if r2 is Err {
                        (b2, r2)
                    } else {
                        complements_upto(nv, block, b2, block.items@.len() as int)
                    }
                }
            },
        }
    }
}

/// Every default that a reset reaches can be encoded without overflowing a 64-bit word.
pub open spec fn reset_defined(nv: NvStruct, buf: Seq<u8>) -> bool {
    nv.defaults@.len() > 0 ==> match spec_block(nv) {
        None => true,
        Some(block) => {
            let (b1, r1) = fill_upto(nv, block, buf, block.items@.len() as int);
            r1 is Ok ==> forall|k: int|
                0 <= k < nv.defaults@.len() && #[trigger] defaults_upto(nv, b1, k).1 is Ok
                    && default_applies(nv, nv.defaults@[k].0@) ==> encode_defined(
                    nv,
                    buf.len() as int,
                    nv.defaults@[k].0@,
                    ValueModel::Literal(nv.defaults@[k].1 as u64),
                )
        },
    }
}

impl<'a> Descriptor<'a> {
    /// Index of the first item of `block` named as the complement of `item`.
    fn complement_sibling_index(block: &Block, item: &BlockItem) -> (r: Option<usize>)
        ensures
            match find_first(block.items@, complement_sibling(*item)) {
                Some(i) => r == Some(i as usize),
                None => r is None,
            },
            r matches Some(i) ==> is_first_match(block.items@, complement_sibling(*item), i as int),
    {
        let mut i: usize = 0;
        while i < block.items.len()
            invariant
                i <= block.items@.len(),
                forall|j: int|
                    0 <= j < i ==> !complement_sibling(*item)(#[trigger] block.items@[j]),
            decreases block.items@.len() - i,
        {
            if is_n_complement(block.items[i].name.as_str(), item.name.as_str()) {
                proof {
                    lemma_find_first_is(block.items@, complement_sibling(*item), i as int);
                }
                return Some(i);
            }
            i += 1;
        }
        proof {
            lemma_find_first_none(block.items@, complement_sibling(*item));
        }
        None
    }

    fn check_item(block: &Block, item: &BlockItem, buf: &[u8]) -> (r: Result<(), ValidationError>)
        ensures
            r == spec_check_item(*block, *item, buf@),
    {
        let reg = match Self::register_of(item) {
            Some(r) => r,
            None => return Ok(()),
        };
        let entry_size = (reg.bit_size as u64 + 7) / 8;
        let sibling = match Self::complement_sibling_index(block, item) {
            Some(i) => &block.items[i],
            None => return Ok(()),
        };
        let len = buf.len() as u64;
        let src = item.byte_offset as u64;
        proof {
            assert(find_first_elem(block.items@, complement_sibling(*item)) == Some(*sibling));
        }
        let dst = sibling.byte_offset as u64;
        if src + entry_size > len || dst + entry_size > len {
            return Err(ValidationError::BufferTooShort);
        }
        let n = entry_size as usize;
        let src = src as usize;
        let dst = dst as usize;
        let mut i: usize = 0;
        while i < n
            invariant
                src + n <= buf@.len(),
                dst + n <= buf@.len(),
                buf@.len() <= usize::MAX,
                spec_check_item(*block, *item, buf@) == (if bytes_complemented(
                    buf@,
                    src as int,
                    dst as int,
                    n as int,
                ) {
                    Ok(())
                } else {
                    Err(ValidationError::ComplementMismatch { entry: item.name })
                }),
                i <= n,
                bytes_complemented(buf@, src as int, dst as int, i as int),
            decreases n - i,
        {
            if buf[dst + i] != !buf[src + i] {
                assert(!bytes_complemented(buf@, src as int, dst as int, n as int));
                return Err(ValidationError::ComplementMismatch { entry: item.name.clone() });
            }
            i += 1;
        }
        Ok(())
    }

    /// Checks that every register entry with an `N`-complement sibling is complemented there.
    pub fn validate(&self, buf: &[u8]) -> (r: Result<(), ValidationError>)
        ensures
            r == spec_validate(*self.nv, buf@),
    {
        let block = match self.block() {
            Some(b) => b,
            None => return Ok(()),
        };
        let mut k: usize = 0;
        while k < block.items.len()
            invariant
                spec_block(*self.nv) == Some(*block),
                k <= block.items@.len(),
                forall|j: int|
                    0 <= j < k ==> !item_fails(*block, buf@)(#[trigger] block.items@[j]),
            decreases block.items@.len() - k,
        {
            let res = Self::check_item(block, &block.items[k], buf);
            if res.is_err() {
                proof {
                    lemma_find_first_is(block.items@, item_fails(*block, buf@), k as int);
                }
                return res;
            }
            k += 1;
        }
        proof {
            lemma_find_first_none(block.items@, item_fails(*block, buf@));
        }
        Ok(())
    }
}

} // verus!

verus! {

/// A successful result is the one success there is.
proof fn lemma_ok_unit(r: Result<(), EncodeError>)
    requires
        r is Ok,
    ensures
        r == Ok::<(), EncodeError>(()),
{
    let u: () = r->Ok_0;
    assert(u == ());
}

/// Once erasing fails, it stays failed with the same buffer.
proof fn lemma_erase_err_stays(nv: NvStruct, items: Seq<BlockItem>, base: int, buf: Seq<u8>, k: int, n: int, depth: nat)
    requires
        0 <= k <= n,
        erase_items(nv, items, base, buf, k, depth).1 is Err,
    ensures
        erase_items(nv, items, base, buf, n, depth) == erase_items(nv, items, base, buf, k, depth),
    decreases n - k,
{
    if n > k {
        lemma_erase_err_stays(nv, items, base, buf, k, n - 1, depth);
    }
}

/// A successful erase keeps the buffer's length, and every register entry it passed lies inside
/// the buffer.
pub proof fn lemma_erase_ok(nv: NvStruct, items: Seq<BlockItem>, base: int, buf: Seq<u8>, k: int, depth: nat)
    requires
        0 <= base,
        0 <= k <= items.len(),
        erase_items(nv, items, base, buf, k, depth).1 is Ok,
    ensures
        erase_items(nv, items, base, buf, k, depth).0.len() == buf.len(),
        forall|j: int|
            0 <= j < k && spec_register_of(#[trigger] items[j]) is Some ==> base + items[j].byte_offset
                + entry_bytes(spec_register_of(items[j])->0) <= buf.len(),
    decreases depth, k,
{
    if k > 0 {
        let (b, r) = erase_items(nv, items, base, buf, k - 1, depth);
        if r is Err {
            assert(erase_items(nv, items, base, buf, k, depth) == (b, r));
        } else {
            lemma_erase_ok(nv, items, base, buf, k - 1, depth);
            let item = items[k - 1];
            let start = base + item.byte_offset;
            match item.inner {
                BlockItemInner::Register(reg) => {
                    let n = entry_bytes(reg);
                    if start + n <= b.len() {
                        super::laws::lemma_splice(b, start, Seq::new(n as nat, |i: int| 0xFFu8));
                    }
                },
                BlockItemInner::Block(nested) => {
                    if depth > 0 && start <= b.len() {
                        if let Some(nb) = find_first_elem(nv.ir.blocks@, block_named(nested.block@)) {
                            lemma_erase_ok(nv, nb.items@, start, b, nb.items@.len() as int, (depth - 1) as nat);
                        }
                    }
                },
            }
        }
    }
}

/// Once writing a default fails, it stays failed with the same buffer.
proof fn lemma_defaults_err_stays(nv: NvStruct, buf: Seq<u8>, k: int, n: int)
    requires
        0 <= k <= n,
        defaults_upto(nv, buf, k).1 is Err,
    ensures
        defaults_upto(nv, buf, n) == defaults_upto(nv, buf, k),
    decreases n - k,
{
    if n > k {
        lemma_defaults_err_stays(nv, buf, k, n - 1);
    }
}

/// Once writing a default fails, it stays failed with the same buffer.
pub proof fn lemma_defaults_err_stays_pub(nv: NvStruct, buf: Seq<u8>, k: int, n: int)
    requires
        0 <= k <= n,
        defaults_upto(nv, buf, k).1 is Err,
    ensures
        defaults_upto(nv, buf, n) == defaults_upto(nv, buf, k),
{
    lemma_defaults_err_stays(nv, buf, k, n);
}

/// Once syncing a complement fails, it stays failed with the same buffer.
proof fn lemma_complements_err_stays(nv: NvStruct, block: Block, buf: Seq<u8>, k: int, n: int)
    requires
        0 <= k <= n,
        complements_upto(nv, block, buf, k).1 is Err,
    ensures
        complements_upto(nv, block, buf, n) == complements_upto(nv, block, buf, k),
    decreases n - k,
{
    if n > k {
        lemma_complements_err_stays(nv, block, buf, k, n - 1);
    }
}

impl<'a> Descriptor<'a> {
    /// The first block of the description named `name`.
    fn block_named(&self, name: &str) -> (r: Option<&'a Block>)
        ensures
            opt_ref(r) == find_first_elem(self.nv.ir.blocks@, block_named(name@)),
    {
        let nv: &'a NvStruct = self.nv;
        let mut i: usize = 0;
        while i < nv.ir.blocks.len()
            invariant
                nv == self.nv,
                i <= nv.ir.blocks@.len(),
                forall|j: int| 0 <= j < i ==> !block_named(name@)(#[trigger] nv.ir.blocks@[j]),
            decreases nv.ir.blocks@.len() - i,
        {
            if crate::mem_layout::str_eq(nv.ir.blocks[i].name.as_str(), name) {
                proof {
                    lemma_find_first_is(nv.ir.blocks@, block_named(name@), i as int);
                }
                return Some(&nv.ir.blocks[i]);
            }
            i += 1;
        }
        proof {
            lemma_find_first_none(nv.ir.blocks@, block_named(name@));
        }
        None
    }

    /// Erases the items of a block whose offsets count from `base` (see `erase_items`).
    fn erase_items(&self, buf: &mut [u8], items: &Vec<BlockItem>, base: usize, depth: usize) -> (r: Result<(), EncodeError>)
        requires
            base <= old(buf)@.len(),
        ensures
            (final(buf)@, r) == erase_items(*self.nv, items@, base as int, old(buf)@, items@.len() as int, depth as nat),
        decreases depth,
    {
        let mut k: usize = 0;
        while k < items.len()
            invariant
                k <= items@.len(),
                base <= buf@.len(),
                buf@.len() == old(buf)@.len(),
                erase_items(*self.nv, items@, base as int, old(buf)@, k as int, depth as nat) == (buf@, Ok::<(), EncodeError>(())),
            decreases items@.len() - k,
        {
            let item = &items[k];
            proof {
                assert(items@[k as int] == *item);
            }
            let room = buf.len() - base;
            match &item.inner {
                BlockItemInner::Register(reg) => {
                    let n: u64 = (reg.bit_size as u64 + 7) / 8;
                    if item.byte_offset as u64 + n > room as u64 {
                        proof {
                            lemma_erase_err_stays(*self.nv, items@, base as int, old(buf)@, k + 1, items@.len() as int, depth as nat);
                        }
                        return Err(EncodeError::BufferTooShort);
                    }
                    let start = base + item.byte_offset as usize;
                    let end = start + n as usize;
                    let ghost before = buf@;
                    let mut i: usize = start;
                    while i < end
                        invariant
                            start <= i <= end,
                            end <= buf@.len(),
                            buf@.len() == before.len(),
                            forall|j: int| start <= j < i ==> #[trigger] buf@[j] == 0xFFu8,
                            forall|j: int|
                                0 <= j < buf@.len() && !(start <= j < i) ==> #[trigger] buf@[j] == before[j],
                        decreases end - i,
                    {
                        buf[i] = 0xFF;
                        i += 1;
                    }
                    proof {
                        let filled = splice(before, start as int, Seq::new((end - start) as nat, |i: int| 0xFFu8));
                        assert(buf@ =~= filled);
                        assert(entry_bytes(*reg) == n);
                        assert(erase_items(*self.nv, items@, base as int, old(buf)@, k + 1, depth as nat) == (buf@, Ok::<(), EncodeError>(())));
                    }
                },
                BlockItemInner::Block(nested) => {
                    if depth > 0 {
                        if item.byte_offset as u64 > room as u64 {
                            proof {
                                lemma_erase_err_stays(*self.nv, items@, base as int, old(buf)@, k + 1, items@.len() as int, depth as nat);
                            }
                            return Err(EncodeError::BufferTooShort);
                        }
                        let start = base + item.byte_offset as usize;
                        match self.block_named(nested.block.as_str()) {
                            None => {},
                            Some(nb) => {
                                let ghost before = buf@;
                                let r = self.erase_items(buf, &nb.items, start, depth - 1);
                                proof {
                                    assert(erase_items(*self.nv, items@, base as int, old(buf)@, k + 1, depth as nat)
                                        == erase_items(*self.nv, nb.items@, start as int, before, nb.items@.len() as int, (depth - 1) as nat));
                                }
                                match r {
                                    Ok(()) => {
                                        proof {
                                            lemma_ok_unit(r);
                                            lemma_erase_ok(*self.nv, nb.items@, start as int, before, nb.items@.len() as int, (depth - 1) as nat);
                                        }
                                    },
                                    Err(e) => {
                                        proof {
                                            lemma_erase_err_stays(*self.nv, items@, base as int, old(buf)@, k + 1, items@.len() as int, depth as nat);
                                        }
                                        return Err(e);
                                    },
                                }
                            },
                        }
                    }
                },
            }
            k += 1;
        }
        Ok(())
    }

    /// Restores the buffer to factory state: erases every item of the structure's block to `0xFF`
    /// (register entries, and nested blocks item by item), writes each declared default of a
    /// writable entry on top, then re-syncs every `N`-complement. Nothing happens when the
    /// structure declares no defaults.
    pub fn reset(&self, buf: &mut [u8]) -> (r: Result<(), EncodeError>)
        requires
            reset_defined(*self.nv, old(buf)@),
        ensures
            (final(buf)@, r) == spec_reset(*self.nv, old(buf)@),
    {
        let _len = buf.len();
        if self.nv.defaults.len() == 0 {
            return Ok(());
        }
        let block = match self.block() {
            Some(b) => b,
            None => return Ok(()),
        };
        let depth = self.nv.ir.blocks.len();
        let ghost before = buf@;
        let erased = self.erase_items(buf, &block.items, 0, depth);
        assert(before == old(buf)@);
        assert((buf@, erased) == erase_items(*self.nv, block.items@, 0, before, block.items@.len() as int, depth as nat));
        match erased {
            Ok(()) => {},
            Err(e) => {
                return Err(e);
            },
        }
        assert(depth as nat == self.nv.ir.blocks@.len());
        proof {
            lemma_ok_unit(erased);
            lemma_erase_ok(*self.nv, block.items@, 0, old(buf)@, block.items@.len() as int, depth as nat);
            assert(fill_upto(*self.nv, *block, old(buf)@, block.items@.len() as int) == (buf@, Ok::<(), EncodeError>(())));
        }
        let ghost b1 = buf@;
        let mut d: usize = 0;
        while d < self.nv.defaults.len()
            invariant
                reset_defined(*self.nv, old(buf)@),
                self.nv.defaults@.len() > 0,
                spec_block(*self.nv) == Some(*block),
                fill_upto(*self.nv, *block, old(buf)@, block.items@.len() as int) == (b1, Ok::<(), EncodeError>(())),
                d <= self.nv.defaults@.len(),
                buf@.len() == old(buf)@.len(),
                defaults_upto(*self.nv, b1, d as int) == (buf@, Ok::<(), EncodeError>(())),
                forall|j: int|
                    0 <= j < block.items@.len() ==> (spec_register_of(#[trigger] block.items@[j]) matches Some(reg)
                        ==> block.items@[j].byte_offset + entry_bytes(reg) <= buf@.len()),
            decreases self.nv.defaults@.len() - d,
        {
            let name = self.nv.defaults[d].0.as_str();
            let value = self.nv.defaults[d].1;
            let applies = match self.item(name) {
                Some(item) => match Self::register_of(item) {
                    Some(reg) => reg.access != Access::Read,
                    None => false,
                },
                None => false,
            };
            if applies {
                proof {
                    assert(default_applies(*self.nv, self.nv.defaults@[d as int].0@));
                    assert(defaults_upto(*self.nv, b1, d as int).1 is Ok);
                }
                match self.encode(buf, name, EncodeInput::Literal(value as u64)) {
                    Ok(()) => {},
                    Err(e) => {
                        proof {
                            lemma_defaults_err_stays(*self.nv, b1, d + 1, self.nv.defaults@.len() as int);
                        }
                        return Err(e);
                    },
                }
            }
            d += 1;
        }
        let mut k: usize = 0;
        let ghost b2 = buf@;
        while k < block.items.len()
            invariant
                spec_block(*self.nv) == Some(*block),
                self.nv.defaults@.len() > 0,
                fill_upto(*self.nv, *block, old(buf)@, block.items@.len() as int) == (b1, Ok::<(), EncodeError>(())),
                defaults_upto(*self.nv, b1, self.nv.defaults@.len() as int) == (b2, Ok::<(), EncodeError>(())),
                k <= block.items@.len(),
                buf@.len() == old(buf)@.len(),
                complements_upto(*self.nv, *block, b2, k as int) == (buf@, Ok::<(), EncodeError>(())),
                forall|j: int|
                    0 <= j < block.items@.len() ==> (spec_register_of(#[trigger] block.items@[j]) matches Some(reg)
                        ==> block.items@[j].byte_offset + entry_bytes(reg) <= buf@.len()),
            decreases block.items@.len() - k,
        {
            let item = &block.items[k];
            match self.apply_complement(buf, item) {
                Ok(()) => {},
                Err(e) => {
                    proof {
                        lemma_complements_err_stays(*self.nv, *block, b2, k + 1, block.items@.len() as int);
                    }
                    return Err(e);
                },
            }
            k += 1;
        }
        Ok(())
    }
}

} // verus!
