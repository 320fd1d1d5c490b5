//! Descriptors of non-volatile structures and the lookups that resolve paths inside them.
use vstd::prelude::*;

use crate::mem_layout::{region_named, str_eq, MemoryRegion};
use crate::search::{
    find_first, find_first_elem, is_first_match, lemma_find_first_is, lemma_find_first_none,
};
use crate::text::{eq_ignore_ascii_case, spec_split_once, split_once_char, str_eq_ignore_ascii_case};

use super::ir::{
    BitOffset, Block, BlockItem, BlockItemInner, Enum, Field, FieldSet, NvMetadata, NvStruct,
    Register,
};
use super::types::{Info, InfoModel};

verus! {

/// A non-volatile structure together with the memory region that holds it.
#[derive(Debug, Clone, Copy)]
pub struct Descriptor<'a> {
    pub region: &'a MemoryRegion,
    pub nv: &'a NvStruct,
}

impl<'a> View for Descriptor<'a> {
    type V = (MemoryRegion, NvStruct);

    open spec fn view(&self) -> (MemoryRegion, NvStruct) {
        (*self.region, *self.nv)
    }
}

/// The value behind an optional reference.
pub open spec fn opt_ref<T>(o: Option<&T>) -> Option<T> {
    match o {
        Some(x) => Some(*x),
        None => None,
    }
}

pub open spec fn block_named(name: Seq<char>) -> spec_fn(Block) -> bool {
    |b: Block| b.name@ == name
}

pub open spec fn item_named(entry: Seq<char>) -> spec_fn(BlockItem) -> bool {
    |i: BlockItem| eq_ignore_ascii_case(i.name@, entry)
}

pub open spec fn fieldset_named(name: Seq<char>) -> spec_fn(FieldSet) -> bool {
    |f: FieldSet| f.name@ == name
}

pub open spec fn field_named(name: Seq<char>) -> spec_fn(Field) -> bool {
    |f: Field| eq_ignore_ascii_case(f.name@, name)
}

pub open spec fn enum_named(name: Seq<char>) -> spec_fn(Enum) -> bool {
    |e: Enum| e.name@ == name
}

pub open spec fn default_named(entry: Seq<char>) -> spec_fn((String, u32)) -> bool {
    |d: (String, u32)| eq_ignore_ascii_case(d.0@, entry)
}

pub open spec fn kind_named(name: Seq<char>) -> spec_fn((MemoryRegion, NvStruct)) -> bool {
    |d: (MemoryRegion, NvStruct)| eq_ignore_ascii_case(d.1.kind@, name)
}

/// The block that lays out the structure: the first block named by `nv.block`.
pub open spec fn spec_block(nv: NvStruct) -> Option<Block> {
    find_first_elem(nv.ir.blocks@, block_named(nv.block@))
}

/// The first item of the structure's block whose name matches `entry`, ignoring ASCII case.
pub open spec fn spec_item(nv: NvStruct, entry: Seq<char>) -> Option<BlockItem> {
    match spec_block(nv) {
        Some(b) => find_first_elem(b.items@, item_named(entry)),
        None => None,
    }
}

pub open spec fn spec_register_of(item: BlockItem) -> Option<Register> {
    match item.inner {
        BlockItemInner::Register(r) => Some(r),
        BlockItemInner::Block(_) => None,
    }
}

/// The field set of a register item: the first field set carrying the register's field-set name.
pub open spec fn spec_fieldset_of(nv: NvStruct, item: BlockItem) -> Option<FieldSet> {
    match spec_register_of(item) {
        Some(r) => match r.fieldset {
            Some(n) => find_first_elem(nv.ir.fieldsets@, fieldset_named(n@)),
            None => None,
        },
        None => None,
    }
}

pub open spec fn spec_field_in(fs: FieldSet, name: Seq<char>) -> Option<Field> {
    find_first_elem(fs.fields@, field_named(name))
}

pub open spec fn spec_enumm_named(nv: NvStruct, name: Seq<char>) -> Option<Enum> {
    find_first_elem(nv.ir.enums@, enum_named(name))
}

/// The declared default of an entry, matched ignoring ASCII case.
pub open spec fn spec_default_for(nv: NvStruct, entry: Seq<char>) -> Option<u64> {
    match find_first_elem(nv.defaults@, default_named(entry)) {
        Some(d) => Some(d.1 as u64),
        None => None,
    }
}

/// A path `entry.field` split into its entry and its optional field.
pub open spec fn spec_entry_field(path: Seq<char>) -> (Seq<char>, Option<Seq<char>>) {
    match spec_split_once(path, '.') {
        Some((e, f)) => (e, Some(f)),
        None => (path, None),
    }
}

/// The enumeration that a field refers to.
pub open spec fn spec_field_enum(nv: NvStruct, field: Field) -> Option<Enum> {
    match field.enumm {
        Some(n) => spec_enumm_named(nv, n@),
        None => None,
    }
}

/// Where the entry or field named by `path` lives and how it is interpreted.
pub open spec fn spec_describe(nv: NvStruct, path: Seq<char>) -> Option<InfoModel> {
    let (entry, field) = spec_entry_field(path);
    match spec_item(nv, entry) {
        None => None,
        Some(item) => match spec_register_of(item) {
            None => None,
            Some(reg) => match field {
                None => Some(
                    InfoModel {
                        description: item.description,
                        byte_offset: item.byte_offset,
                        bit_offset: 0,
                        bit_size: reg.bit_size,
                        access: reg.access,
                        enumm: None,
                        default: spec_default_for(nv, entry),
                    },
                ),
                Some(fname) => match spec_fieldset_of(nv, item) {
                    None => None,
                    Some(fs) => match spec_field_in(fs, fname) {
                        None => None,
                        Some(f) => match f.bit_offset {
                            BitOffset::Cursed(_) => None,
                            BitOffset::Regular(off) => Some(
                                InfoModel {
                                    description: f.description,
                                    byte_offset: item.byte_offset,
                                    bit_offset: off,
                                    bit_size: f.bit_size,
                                    access: reg.access,
                                    enumm: spec_field_enum(nv, f),
                                    default: None,
                                },
                            ),
                        },
                    },
                },
            },
        },
    }
}

/// The region that a binding names: the first memory region with that name.
pub open spec fn binding_region(meta: NvMetadata, b: int) -> MemoryRegion {
    find_first_elem(meta.memory@, region_named(meta.nv_structs@[b].region@))->0
}

/// Every binding names an existing memory region.
pub open spec fn bindings_resolve(meta: NvMetadata) -> bool {
    forall|b: int|
        0 <= b < meta.nv_structs@.len() ==> #[trigger] find_first(
            meta.memory@,
            region_named(meta.nv_structs@[b].region@),
        ) is Some
}

/// The descriptors of the first `n` bindings, in order.
pub open spec fn descriptors_upto(meta: NvMetadata, n: int) -> Seq<(MemoryRegion, NvStruct)>
    decreases n,
{
    if n <= 0 {
        Seq::empty()
    } else {
        descriptors_upto(meta, n - 1) + Seq::new(
            meta.nv_structs@[n - 1].structs@.len(),
            |j: int| (binding_region(meta, n - 1), meta.nv_structs@[n - 1].structs@[j]),
        )
    }
}

/// All descriptors of a chip: each structure of each binding, with the binding's region.
pub open spec fn spec_descriptors(meta: NvMetadata) -> Seq<(MemoryRegion, NvStruct)> {
    descriptors_upto(meta, meta.nv_structs@.len() as int)
}

fn region_for<'m>(meta: &'m NvMetadata, name: &str) -> (r: Option<&'m MemoryRegion>)
    ensures
        opt_ref(r) == find_first_elem(meta.memory@, region_named(name@)),
{
    let mut i: usize = 0;
    while i < meta.memory.len()
        invariant
            i <= meta.memory@.len(),
            forall|j: int| 0 <= j < i ==> !region_named(name@)(#[trigger] meta.memory@[j]),
        decreases meta.memory@.len() - i,
    {
        if str_eq(meta.memory[i].name.as_str(), name) {
            proof {
                lemma_find_first_is(meta.memory@, region_named(name@), i as int);
            }
            return Some(&meta.memory[i]);
        }
        i += 1;
    }
    proof {
        lemma_find_first_none(meta.memory@, region_named(name@));
    }
    None
}

impl<'a> Descriptor<'a> {
    /// Every descriptor of the chip, binding by binding.
    pub fn iter(meta: &'a NvMetadata) -> (r: Vec<Descriptor<'a>>)
        requires
            bindings_resolve(*meta),
        ensures
            r@.len() == spec_descriptors(*meta).len(),
            forall|i: int| 0 <= i < r@.len() ==> #[trigger] r@[i]@ == spec_descriptors(*meta)[i],
    {
        let mut out: Vec<Descriptor<'a>> = Vec::new();
        let mut b: usize = 0;
        while b < meta.nv_structs.len()
            invariant
                b <= meta.nv_structs@.len(),
                bindings_resolve(*meta),
                out@.len() == descriptors_upto(*meta, b as int).len(),
                forall|i: int|
                    0 <= i < out@.len() ==> #[trigger] out@[i]@ == descriptors_upto(*meta, b as int)[i],
            decreases meta.nv_structs@.len() - b,
        {
            let binding = &meta.nv_structs[b];
            assert(find_first(meta.memory@, region_named(meta.nv_structs@[b as int].region@)) is Some);
            let region = match region_for(meta, binding.region.as_str()) {
                Some(r) => r,
                None => {
                    proof {
                        assert(false);
                    }
                    return out;
                },
            };
            let ghost prev = out@;
            let ghost prefix = descriptors_upto(*meta, b as int);
            let mut j: usize = 0;
            while j < binding.structs.len()
                invariant
                    j <= binding.structs@.len(),
                    *binding == meta.nv_structs@[b as int],
                    *region == binding_region(*meta, b as int),
                    out@.len() == prev.len() + j,
                    prev.len() == prefix.len(),
                    forall|i: int| 0 <= i < prev.len() ==> #[trigger] out@[i]@ == prefix[i],
                    forall|i: int|
                        0 <= i < j ==> #[trigger] out@[prev.len() + i]@ == (
                            binding_region(*meta, b as int),
                            binding.structs@[i],
                        ),
                decreases binding.structs@.len() - j,
            {
                out.push(Descriptor { region, nv: &binding.structs[j] });
                j += 1;
            }
            proof {
                let next = descriptors_upto(*meta, b + 1);
                assert(next.len() == out@.len());
                assert forall|i: int| 0 <= i < out@.len() implies #[trigger] out@[i]@ == next[i] by {
                    if i >= prev.len() {
                        assert(out@[prev.len() + (i - prev.len())]@ == (
                            binding_region(*meta, b as int),
                            binding.structs@[i - prev.len()],
                        ));
                    }
                }
            }
            b += 1;
        }
        out
    }

    /// The first descriptor whose kind matches `name`, ignoring ASCII case.
    pub fn find(meta: &'a NvMetadata, name: &str) -> (r: Option<Descriptor<'a>>)
        requires
            bindings_resolve(*meta),
        ensures
            match find_first(spec_descriptors(*meta), kind_named(name@)) {
                Some(i) => r matches Some(d) && d@ == spec_descriptors(*meta)[i],
                None => r is None,
            },
    {
        let all = Self::iter(meta);
        let mut i: usize = 0;
        while i < all.len()
            invariant
                i <= all@.len(),
                all@.len() == spec_descriptors(*meta).len(),
                forall|k: int| 0 <= k < all@.len() ==> #[trigger] all@[k]@ == spec_descriptors(*meta)[k],
                forall|k: int|
                    0 <= k < i ==> !kind_named(name@)(#[trigger] spec_descriptors(*meta)[k]),
            decreases all@.len() - i,
        {
            let d = all[i];
            if str_eq_ignore_ascii_case(d.nv.kind.as_str(), name) {
                proof {
                    assert(all@[i as int]@ == spec_descriptors(*meta)[i as int]);
                    lemma_find_first_is(spec_descriptors(*meta), kind_named(name@), i as int);
                }
                return Some(d);
            }
            proof {
                assert(all@[i as int]@ == spec_descriptors(*meta)[i as int]);
            }
            i += 1;
        }
        proof {
            lemma_find_first_none(spec_descriptors(*meta), kind_named(name@));
        }
        None
    }

    pub fn name(&self) -> (r: &'a str)
        ensures
            r@ == self.nv.name@,
    {
        self.nv.name.as_str()
    }

    pub fn kind(&self) -> (r: &'a str)
        ensures
            r@ == self.nv.kind@,
    {
        self.nv.kind.as_str()
    }
}

} // verus!

verus! {

impl<'a> Descriptor<'a> {
    /// The block that lays out the structure.
    pub fn block(&self) -> (r: Option<&'a Block>)
        ensures
            opt_ref(r) == spec_block(*self.nv),
            r matches Some(b) ==> exists|i: int|
                is_first_match(self.nv.ir.blocks@, block_named(self.nv.block@), i),
    {
        let nv: &'a NvStruct = self.nv;
        let mut i: usize = 0;
        while i < nv.ir.blocks.len()
            invariant
                nv == self.nv,
                i <= nv.ir.blocks@.len(),
                forall|j: int| 0 <= j < i ==> !block_named(nv.block@)(#[trigger] nv.ir.blocks@[j]),
            decreases nv.ir.blocks@.len() - i,
        {
            if str_eq(nv.ir.blocks[i].name.as_str(), nv.block.as_str()) {
                proof {
                    lemma_find_first_is(nv.ir.blocks@, block_named(nv.block@), i as int);
                }
                return Some(&nv.ir.blocks[i]);
            }
            i += 1;
        }
        proof {
            lemma_find_first_none(nv.ir.blocks@, block_named(nv.block@));
        }
        None
    }

    /// The first item of `block` whose name matches `entry` ignoring ASCII case, with its index.
    pub fn item_index(block: &'a Block, entry: &str) -> (r: Option<usize>)
        ensures
            match find_first(block.items@, item_named(entry@)) {
                Some(i) => r == Some(i as usize),
                None => r is None,
            },
            r matches Some(i) ==> is_first_match(block.items@, item_named(entry@), i as int),
    {
        let mut i: usize = 0;
        while i < block.items.len()
            invariant
                i <= block.items@.len(),
                forall|j: int| 0 <= j < i ==> !item_named(entry@)(#[trigger] block.items@[j]),
            decreases block.items@.len() - i,
        {
            if str_eq_ignore_ascii_case(block.items[i].name.as_str(), entry) {
                proof {
                    lemma_find_first_is(block.items@, item_named(entry@), i as int);
                }
                return Some(i);
            }
            i += 1;
        }
        proof {
            lemma_find_first_none(block.items@, item_named(entry@));
        }
        None
    }

    /// The item named `entry`, ignoring ASCII case.
    pub fn item(&self, entry: &str) -> (r: Option<&'a BlockItem>)
        ensures
            opt_ref(r) == spec_item(*self.nv, entry@),
    {
        let block = self.block()?;
        match Self::item_index(block, entry) {
            Some(i) => Some(&block.items[i]),
            None => None,
        }
    }

    /// The register of a register item.
    pub fn register_of(item: &BlockItem) -> (r: Option<&Register>)
        ensures
            opt_ref(r) == spec_register_of(*item),
    {
        match &item.inner {
            BlockItemInner::Register(r) => Some(r),
            BlockItemInner::Block(_) => None,
        }
    }

    /// The field set of a register item.
    pub fn fieldset_of(&self, item: &BlockItem) -> (r: Option<&'a FieldSet>)
        ensures
            opt_ref(r) == spec_fieldset_of(*self.nv, *item),
    {
        let reg = Self::register_of(item)?;
        let name = match &reg.fieldset {
            Some(n) => n,
            None => return None,
        };
        let nv: &'a NvStruct = self.nv;
        let mut i: usize = 0;
        while i < nv.ir.fieldsets.len()
            invariant
                nv == self.nv,
                spec_register_of(*item) == Some(*reg),
                reg.fieldset == Some(*name),
                i <= nv.ir.fieldsets@.len(),
                forall|j: int|
                    0 <= j < i ==> !fieldset_named(name@)(#[trigger] nv.ir.fieldsets@[j]),
            decreases nv.ir.fieldsets@.len() - i,
        {
            if str_eq(nv.ir.fieldsets[i].name.as_str(), name.as_str()) {
                proof {
                    lemma_find_first_is(nv.ir.fieldsets@, fieldset_named(name@), i as int);
                }
                return Some(&nv.ir.fieldsets[i]);
            }
            i += 1;
        }
        proof {
            lemma_find_first_none(nv.ir.fieldsets@, fieldset_named(name@));
        }
        None
    }

    /// The field of `fs` named `name`, ignoring ASCII case.
    pub fn field_in(fs: &'a FieldSet, name: &str) -> (r: Option<&'a Field>)
        ensures
            opt_ref(r) == spec_field_in(*fs, name@),
    {
        let mut i: usize = 0;
        while i < fs.fields.len()
            invariant
                i <= fs.fields@.len(),
                forall|j: int| 0 <= j < i ==> !field_named(name@)(#[trigger] fs.fields@[j]),
            decreases fs.fields@.len() - i,
        {
            if str_eq_ignore_ascii_case(fs.fields[i].name.as_str(), name) {
                proof {
                    lemma_find_first_is(fs.fields@, field_named(name@), i as int);
                }
                return Some(&fs.fields[i]);
            }
            i += 1;
        }
        proof {
            lemma_find_first_none(fs.fields@, field_named(name@));
        }
        None
    }

    /// The enumeration named `name`.
    pub fn enumm_named(&self, name: &str) -> (r: Option<&'a Enum>)
        ensures
            opt_ref(r) == spec_enumm_named(*self.nv, name@),
    {
        let nv: &'a NvStruct = self.nv;
        let mut i: usize = 0;
        while i < nv.ir.enums.len()
            invariant
                nv == self.nv,
                i <= nv.ir.enums@.len(),
                forall|j: int| 0 <= j < i ==> !enum_named(name@)(#[trigger] nv.ir.enums@[j]),
            decreases nv.ir.enums@.len() - i,
        {
            if str_eq(nv.ir.enums[i].name.as_str(), name) {
                proof {
                    lemma_find_first_is(nv.ir.enums@, enum_named(name@), i as int);
                }
                return Some(&nv.ir.enums[i]);
            }
            i += 1;
        }
        proof {
            lemma_find_first_none(nv.ir.enums@, enum_named(name@));
        }
        None
    }

    /// The enumeration that a field refers to.
    pub fn field_enum(&self, field: &Field) -> (r: Option<&'a Enum>)
        ensures
            opt_ref(r) == spec_field_enum(*self.nv, *field),
    {
        match &field.enumm {
            Some(n) => self.enumm_named(n.as_str()),
            None => None,
        }
    }

    /// The declared default of `entry`, matched ignoring ASCII case.
    pub fn default_for(&self, entry: &str) -> (r: Option<u64>)
        ensures
            r == spec_default_for(*self.nv, entry@),
    {
        let nv: &'a NvStruct = self.nv;
        let mut i: usize = 0;
        while i < nv.defaults.len()
            invariant
                nv == self.nv,
                i <= nv.defaults@.len(),
                forall|j: int| 0 <= j < i ==> !default_named(entry@)(#[trigger] nv.defaults@[j]),
            decreases nv.defaults@.len() - i,
        {
            if str_eq_ignore_ascii_case(nv.defaults[i].0.as_str(), entry) {
                proof {
                    lemma_find_first_is(nv.defaults@, default_named(entry@), i as int);
                }
                return Some(nv.defaults[i].1 as u64);
            }
            i += 1;
        }
        proof {
            lemma_find_first_none(nv.defaults@, default_named(entry@));
        }
        None
    }

    /// The declared defaults of the structure, in declaration order.
    pub fn defaults(&self) -> (r: &'a Vec<(String, u32)>)
        ensures
            *r == self.nv.defaults,
    {
        &self.nv.defaults
    }

    /// The names of the entries of the structure's block, in order.
    pub fn entries(&self) -> (r: Vec<&'a str>)
        ensures
            match spec_block(*self.nv) {
                Some(b) => r@.len() == b.items@.len() && forall|i: int|
                    0 <= i < r@.len() ==> (#[trigger] r@[i])@ == b.items@[i].name@,
                None => r@.len() == 0,
            },
    {
        let mut out: Vec<&'a str> = Vec::new();
        match self.block() {
            Some(b) => {
                let mut i: usize = 0;
                while i < b.items.len()
                    invariant
                        i <= b.items@.len(),
                        out@.len() == i,
                        forall|k: int| 0 <= k < i ==> (#[trigger] out@[k])@ == b.items@[k].name@,
                    decreases b.items@.len() - i,
                {
                    out.push(b.items[i].name.as_str());
                    i += 1;
                }
            },
            None => {},
        }
        out
    }

    /// The names of the fields of the entry's field set, in order.
    pub fn fields(&self, entry: &str) -> (r: Option<Vec<&'a str>>)
        ensures
            match spec_item(*self.nv, entry@) {
                Some(item) => match spec_fieldset_of(*self.nv, item) {
                    Some(fs) => r matches Some(v) && v@.len() == fs.fields@.len() && forall|i: int|
                        0 <= i < v@.len() ==> (#[trigger] v@[i])@ == fs.fields@[i].name@,
                    None => r is None,
                },
                None => r is None,
            },
    {
        let item = self.item(entry)?;
        let fs = self.fieldset_of(item)?;
        let mut out: Vec<&'a str> = Vec::new();
        let mut i: usize = 0;
        while i < fs.fields.len()
            invariant
                i <= fs.fields@.len(),
                out@.len() == i,
                forall|k: int| 0 <= k < i ==> (#[trigger] out@[k])@ == fs.fields@[k].name@,
            decreases fs.fields@.len() - i,
        {
            out.push(fs.fields[i].name.as_str());
            i += 1;
        }
        Some(out)
    }

    /// Where the entry or field named by `path` (`entry` or `entry.field`) lives.
    pub fn describe(&self, path: &str) -> (r: Option<Info<'a>>)
        ensures
            match spec_describe(*self.nv, path@) {
                Some(m) => r matches Some(info) && info@ == m,
                None => r is None,
            },
    {
        let (entry_name, field_name) = match split_once_char(path, '.') {
            Some((e, f)) => (e, Some(f)),
            None => (path, None),
        };
        let item = self.item(entry_name)?;
        let reg = Self::register_of(item)?;
        match field_name {
            None => Some(
                Info {
                    description: clone_opt_string(&item.description),
                    byte_offset: item.byte_offset,
                    bit_offset: 0,
                    bit_size: reg.bit_size,
                    access: reg.access,
                    enumm: None,
                    default: self.default_for(entry_name),
                },
            ),
            Some(fname) => {
                let fs = self.fieldset_of(item)?;
                let field = Self::field_in(fs, fname)?;
                let bit_offset = match &field.bit_offset {
                    BitOffset::Regular(off) => *off,
                    BitOffset::Cursed(_) => return None,
                };
                let enumm = self.field_enum(field);
                Some(
                    Info {
                        description: clone_opt_string(&field.description),
                        byte_offset: item.byte_offset,
                        bit_offset,
                        bit_size: field.bit_size,
                        access: reg.access,
                        enumm,
                        default: None,
                    },
                )
            },
        }
    }
}

/// A copy of an optional string.
pub fn clone_opt_string(s: &Option<String>) -> (r: Option<String>)
    ensures
        r == *s,
{
    match s {
        Some(x) => Some(x.clone()),
        None => None,
    }
}

} // verus!
