//! Memory geometry of a chip: its regions, their roles, programming modes and access rights.
use vstd::prelude::*;

use crate::search::{is_first_match, find_first, find_first_elem, lemma_find_first_is, lemma_find_first_none};

verus! {

/// The memory regions of one chip.
#[derive(Debug, PartialEq, Eq, Clone)]
pub struct MemoryLayout {
    pub regions: Vec<MemoryRegion>,
}

/// One contiguous memory region.
#[derive(Debug, PartialEq, Eq, Clone)]
pub struct MemoryRegion {
    pub name: String,
    pub kind: MemoryRegionKind,
    pub role: MemoryRole,
    pub address: u32,
    pub size: u32,
    pub modes: Vec<Mode>,
    pub access: Option<Access>,
}

/// The mathematical content of a [`MemoryRegion`].
pub struct MemoryRegionView {
    pub name: Seq<char>,
    pub kind: MemoryRegionKind,
    pub role: MemoryRole,
    pub address: u32,
    pub size: u32,
    pub modes: Seq<Mode>,
    pub access: Option<Access>,
}

impl View for MemoryRegion {
    type V = MemoryRegionView;

    open spec fn view(&self) -> MemoryRegionView {
        MemoryRegionView {
            name: self.name@,
            kind: self.kind,
            role: self.role,
            address: self.address,
            size: self.size,
            modes: self.modes@,
            access: self.access,
        }
    }
}

/// The views of a sequence of regions.
pub open spec fn region_views(s: Seq<MemoryRegion>) -> Seq<MemoryRegionView> {
    s.map_values(|r: MemoryRegion| r@)
}

/// A copy of a region.
pub fn copy_memory_region(r: &MemoryRegion) -> (c: MemoryRegion)
    ensures
        c@ == r@,
{
    let mut modes: Vec<Mode> = Vec::new();
    let mut i: usize = 0;
    while i < r.modes.len()
        invariant
            i <= r.modes@.len(),
            modes@ == r.modes@.take(i as int),
        decreases r.modes@.len() - i,
    {
        modes.push(r.modes[i]);
        i += 1;
        assert(r.modes@.take(i as int) =~= r.modes@.take(i - 1).push(r.modes@[i - 1]));
    }
    assert(r.modes@.take(r.modes@.len() as int) =~= r.modes@);
    MemoryRegion {
        name: r.name.clone(),
        kind: r.kind,
        role: r.role,
        address: r.address,
        size: r.size,
        modes,
        access: r.access,
    }
}

/// What a region is used for.
#[derive(Debug, PartialEq, Eq, Clone, Copy, Structural)]
#[non_exhaustive]
pub enum MemoryRole {
    /// User application flash (`USR_*`).
    Application,
    /// System / factory bootloader flash (`SYS_*`).
    System,
    /// Option-byte region (`OPT`).
    OptionBytes,
    /// Vendor info region (`VND`).
    Vendor,
    /// General-purpose SRAM (`RAM`, `SRAM_SHARED`).
    Ram,
    /// Tightly-coupled memory (`ITCM`, `DTCM`).
    Tcm,
}

/// A flash programming mode and its granularity.
#[derive(Debug, PartialEq, Eq, Clone, Copy, Structural)]
pub enum Mode {
    Fast { page_size: u32, load_size: u32 },
    Standard { erase_size: u32, write_size: u32 },
}

/// Access rights of a region.
#[derive(Debug, PartialEq, Eq, Clone, Copy, Structural)]
pub struct Access {
    pub read: bool,
    pub write: bool,
    pub execute: bool,
}

/// Whether a region is flash or RAM.
#[derive(Debug, PartialEq, Eq, Clone, Copy, Structural)]
pub enum MemoryRegionKind {
    Flash,
    Ram,
}

/// Predicate: the region carries exactly this name.
pub open spec fn region_named(name: Seq<char>) -> spec_fn(MemoryRegion) -> bool {
    |r: MemoryRegion| r.name@ == name
}

/// Predicate: the region has this role.
pub open spec fn region_with_role(role: MemoryRole) -> spec_fn(MemoryRegion) -> bool {
    |r: MemoryRegion| r.role == role
}

/// Predicate: the mode is a fast (page) programming mode.
pub open spec fn mode_is_fast() -> spec_fn(Mode) -> bool {
    |m: Mode| m is Fast
}

/// Predicate: the mode is a standard (erase/write) programming mode.
pub open spec fn mode_is_standard() -> spec_fn(Mode) -> bool {
    |m: Mode| m is Standard
}

/// Byte-for-byte equality of two strings.
pub fn str_eq(a: &str, b: &str) -> (r: bool)
    ensures
        r == (a@ == b@),
{
    let n = a.unicode_len();
    if n != b.unicode_len() {
        return false;
    }
    let mut i: usize = 0;
    while i < n
        invariant
            n == a@.len(),
            n == b@.len(),
            i <= n,
            forall|j: int| 0 <= j < i ==> #[trigger] a@[j] == b@[j],
        decreases n - i,
    {
        if a.get_char(i) != b.get_char(i) {
            return false;
        }
        i += 1;
    }
    assert(a@ =~= b@);
    true
}

impl MemoryLayout {
    /// The first region whose name equals `name`.
    pub fn find(&self, name: &str) -> (r: Option<&MemoryRegion>)
        ensures
            match find_first(self.regions@, region_named(name@)) {
                Some(i) => r == Some(&self.regions@[i]),
                None => r is None,
            },
    {
        let mut i: usize = 0;
        while i < self.regions.len()
            invariant
                i <= self.regions@.len(),
                forall|j: int| 0 <= j < i ==> !region_named(name@)(#[trigger] self.regions@[j]),
            decreases self.regions@.len() - i,
        {
            if str_eq(self.regions[i].name.as_str(), name) {
                proof {
                    lemma_find_first_is(self.regions@, region_named(name@), i as int);
                }
                return Some(&self.regions[i]);
            }
            i += 1;
        }
        proof {
            lemma_find_first_none(self.regions@, region_named(name@));
        }
        None
    }

    /// The first region with the given role.
    pub fn find_by_role(&self, role: MemoryRole) -> (r: Option<&MemoryRegion>)
        ensures
            match find_first(self.regions@, region_with_role(role)) {
                Some(i) => r == Some(&self.regions@[i]),
                None => r is None,
            },
    {
        let mut i: usize = 0;
        while i < self.regions.len()
            invariant
                i <= self.regions@.len(),
                forall|j: int|
                    0 <= j < i ==> !region_with_role(role)(#[trigger] self.regions@[j]),
            decreases self.regions@.len() - i,
        {
            if self.regions[i].role == role {
                proof {
                    lemma_find_first_is(self.regions@, region_with_role(role), i as int);
                }
                return Some(&self.regions[i]);
            }
            i += 1;
        }
        proof {
            lemma_find_first_none(self.regions@, region_with_role(role));
        }
        None
    }
}

/// Index of the first fast mode of a region, if any.
fn first_fast_mode(modes: &Vec<Mode>) -> (r: Option<usize>)
    ensures
        match find_first(modes@, mode_is_fast()) {
            Some(i) => r == Some(i as usize),
            None => r is None,
        },
        r matches Some(i) ==> is_first_match(modes@, mode_is_fast(), i as int),
{
    let mut i: usize = 0;
    while i < modes.len()
        invariant
            i <= modes@.len(),
            forall|j: int| 0 <= j < i ==> !mode_is_fast()(#[trigger] modes@[j]),
        decreases modes@.len() - i,
    {
        if modes[i].is_fast() {
            proof {
                lemma_find_first_is(modes@, mode_is_fast(), i as int);
            }
            return Some(i);
        }
        i += 1;
    }
    proof {
        lemma_find_first_none(modes@, mode_is_fast());
    }
    None
}

/// Index of the first standard mode of a region, if any.
fn first_standard_mode(modes: &Vec<Mode>) -> (r: Option<usize>)
    ensures
        match find_first(modes@, mode_is_standard()) {
            Some(i) => r == Some(i as usize),
            None => r is None,
        },
        r matches Some(i) ==> is_first_match(modes@, mode_is_standard(), i as int),
{
    let mut i: usize = 0;
    while i < modes.len()
        invariant
            i <= modes@.len(),
            forall|j: int| 0 <= j < i ==> !mode_is_standard()(#[trigger] modes@[j]),
        decreases modes@.len() - i,
    {
        if modes[i].is_standard() {
            proof {
                lemma_find_first_is(modes@, mode_is_standard(), i as int);
            }
            return Some(i);
        }
        i += 1;
    }
    proof {
        lemma_find_first_none(modes@, mode_is_standard());
    }
    None
}

/// The page size of the first fast mode of `modes`.
pub open spec fn spec_page_program_size(modes: Seq<Mode>) -> Option<u32> {
    match find_first_elem(modes, mode_is_fast()) {
        Some(Mode::Fast { page_size, .. }) => Some(page_size),
        _ => None,
    }
}

/// The load size of the first fast mode of `modes`.
pub open spec fn spec_fast_load_size(modes: Seq<Mode>) -> Option<u32> {
    match find_first_elem(modes, mode_is_fast()) {
        Some(Mode::Fast { load_size, .. }) => Some(load_size),
        _ => None,
    }
}

/// The erase size of the first standard mode of `modes`.
pub open spec fn spec_erase_size(modes: Seq<Mode>) -> Option<u32> {
    match find_first_elem(modes, mode_is_standard()) {
        Some(Mode::Standard { erase_size, .. }) => Some(erase_size),
        _ => None,
    }
}

/// The write size of the first standard mode of `modes`.
pub open spec fn spec_write_size(modes: Seq<Mode>) -> Option<u32> {
    match find_first_elem(modes, mode_is_standard()) {
        Some(Mode::Standard { write_size, .. }) => Some(write_size),
        _ => None,
    }
}

impl MemoryRegion {
    /// Page size of the fast programming mode.
    pub fn page_program_size(&self) -> (r: Option<u32>)
        ensures
            r == spec_page_program_size(self.modes@),
    {
        match first_fast_mode(&self.modes) {
            Some(i) => match self.modes[i] {
                Mode::Fast { page_size, .. } => Some(page_size),
                Mode::Standard { .. } => None,
            },
            None => None,
        }
    }

    /// Load size of the fast programming mode.
    pub fn fast_load_size(&self) -> (r: Option<u32>)
        ensures
            r == spec_fast_load_size(self.modes@),
    {
        match first_fast_mode(&self.modes) {
            Some(i) => match self.modes[i] {
                Mode::Fast { load_size, .. } => Some(load_size),
                Mode::Standard { .. } => None,
            },
            None => None,
        }
    }

    /// Erase granularity of the standard programming mode.
    pub fn erase_size(&self) -> (r: Option<u32>)
        ensures
            r == spec_erase_size(self.modes@),
    {
        match first_standard_mode(&self.modes) {
            Some(i) => match self.modes[i] {
                Mode::Standard { erase_size, .. } => Some(erase_size),
                Mode::Fast { .. } => None,
            },
            None => None,
        }
    }

    /// Write granularity of the standard programming mode.
    pub fn write_size(&self) -> (r: Option<u32>)
        ensures
            r == spec_write_size(self.modes@),
    {
        match first_standard_mode(&self.modes) {
            Some(i) => match self.modes[i] {
                Mode::Standard { write_size, .. } => Some(write_size),
                Mode::Fast { .. } => None,
            },
            None => None,
        }
    }

    /// One past the last address of the region.
    pub fn end(&self) -> (r: u32)
        requires
            self.address + self.size <= u32::MAX,
        ensures
            r == self.address + self.size,
    {
        self.address + self.size
    }

    /// Whether `addr` lies inside the region.
    pub fn contains(&self, addr: u32) -> (r: bool)
        requires
            self.address + self.size <= u32::MAX,
        ensures
            r == (self.address <= addr && addr < self.address + self.size),
    {
        addr >= self.address && addr < self.end()
    }

    /// Readable unless the access rights say otherwise.
    pub fn readable(&self) -> (r: bool)
        ensures
            r == match self.access {
                Some(a) => a.read,
                None => true,
            },
    {
        match &self.access {
            Some(a) => a.read,
            None => true,
        }
    }

    /// Writable unless the access rights say otherwise.
    pub fn writable(&self) -> (r: bool)
        ensures
            r == match self.access {
                Some(a) => a.write,
                None => true,
            },
    {
        match &self.access {
            Some(a) => a.write,
            None => true,
        }
    }

    /// Executable unless the access rights say otherwise.
    pub fn executable(&self) -> (r: bool)
        ensures
            r == match self.access {
                Some(a) => a.execute,
                None => true,
            },
    {
        match &self.access {
            Some(a) => a.execute,
            None => true,
        }
    }
}

impl Mode {
    pub fn is_fast(&self) -> (r: bool)
        ensures
            r == (*self is Fast),
    {
        matches!(self, Mode::Fast { .. })
    }

    pub fn is_standard(&self) -> (r: bool)
        ensures
            r == (*self is Standard),
    {
        matches!(self, Mode::Standard { .. })
    }
}

} // verus!
