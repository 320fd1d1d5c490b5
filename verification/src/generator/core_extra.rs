//! What the register-access code of one core gets besides the rendered registers: the register
//! block version of each peripheral kind, a `GPIO(n)` accessor, the module paths of the
//! peripheral versions, the core index and the deprecated flash constants.
use vstd::prelude::*;

use crate::chip::cores::Peripheral;
use crate::fmt::{push_decimal, push_str, spec_decimal, string_from_chars};
use crate::generator::data::Chip;
use crate::generator::memory::{flash_write_size, primary_flash};
use crate::mem_layout::{mode_is_fast, str_eq, MemoryRegion, MemoryRegionKind};
use crate::order::{filter_seq, insert_pos, insert_sorted, lemma_filter_push, lemma_insert_pos_is, text_lt};
use crate::search::{find_first, is_first_match, lemma_find_first_is, lemma_find_first_none};

verus! {

/// A peripheral kind and the version of its register block.
pub type KindVersion = (Seq<char>, Seq<char>);

/// The texts of a sequence of string pairs.
pub open spec fn version_texts(s: Seq<(String, String)>) -> Seq<KindVersion> {
    s.map_values(|p: (String, String)| (p.0@, p.1@))
}

/// Predicate: the pair is for kind `k`.
pub open spec fn for_kind(k: Seq<char>) -> spec_fn(KindVersion) -> bool {
    |p: KindVersion| p.0 == k
}

/// Predicate: pair `a` comes after pair `b` in kind order.
pub open spec fn kind_after() -> spec_fn(KindVersion, KindVersion) -> bool {
    |a: KindVersion, b: KindVersion| text_lt(b.0, a.0)
}

/// Adding a kind's version to the versions in kind order: a kind seen before keeps its place
/// when the version agrees; a different version is an error naming the earlier version.
pub open spec fn insert_kind(s: Seq<KindVersion>, kind: Seq<char>, version: Seq<char>) -> Result<Seq<KindVersion>, Seq<char>> {
    match find_first(s, for_kind(kind)) {
        Some(i) => if s[i].1 == version {
            Ok(s)
        } else {
            Err(s[i].1)
        },
        None => Ok(insert_sorted(s, (kind, version), kind_after())),
    }
}

/// The error text of a peripheral kind with two versions.
pub open spec fn msg_two_versions(kind: Seq<char>, old: Seq<char>, new: Seq<char>) -> Seq<char> {
    "Peripheral "@ + kind + " has multiple versions: "@ + old + " and "@ + new
}

/// The error text of an equality assertion that failed.
pub open spec fn msg_assert_eq(left: Seq<char>, right: Seq<char>) -> Seq<char> {
    "assertion `left == right` failed\n  left: "@ + left + "\n right: "@ + right
}

/// The versions of the peripherals from position `k` on, added to `acc`; a GPIO block must sit
/// a whole number of port strides (0x400) after `GPIOA` at `base`.
pub open spec fn versions_from(ps: Seq<Peripheral>, k: int, base: u32, acc: Seq<KindVersion>) -> Result<Seq<KindVersion>, Seq<char>>
    decreases ps.len() - k,
{
    if k < 0 || k >= ps.len() {
        Ok(acc)
    } else {
        match ps[k].registers {
            None => versions_from(ps, k + 1, base, acc),
            Some(r) => match insert_kind(acc, r.kind@, r.version@) {
                Err(old) => Err(msg_two_versions(r.kind@, old, r.version@)),
                Ok(acc2) => if r.kind@ == "gpio"@ {
                    if ps[k].address < base {
                        Err("attempt to subtract with overflow"@)
                    } else if (ps[k].address - base) % 0x400 != 0 {
                        Err(msg_assert_eq("0"@, spec_decimal(((ps[k].address - base) % 0x400) as nat)))
                    } else {
                        versions_from(ps, k + 1, base, acc2)
                    }
                } else {
                    versions_from(ps, k + 1, base, acc2)
                },
            },
        }
    }
}

/// Predicate: the peripheral is `GPIOA`.
pub open spec fn is_gpioa() -> spec_fn(Peripheral) -> bool {
    |p: Peripheral| p.name@ == "GPIOA"@
}

/// The register block versions of a core's peripherals, in kind order, or the error the
/// generator stops with.
pub open spec fn spec_peripheral_versions(ps: Seq<Peripheral>) -> Result<Seq<KindVersion>, Seq<char>> {
    match find_first(ps, is_gpioa()) {
        None => Err("GPIOA must exist"@),
        Some(g) => versions_from(ps, 0, ps[g].address, Seq::empty()),
    }
}

fn insert_version(v: &mut Vec<(String, String)>, kind: &str, version: &str) -> (r: Option<String>)
    ensures
        match insert_kind(version_texts(old(v)@), kind@, version@) {
            Ok(s) => r is None && version_texts(final(v)@) == s,
            Err(old_version) => r matches Some(t) && t@ == old_version && final(v)@ == old(v)@,
        },
{
    let ghost t = version_texts(v@);
    let mut i: usize = 0;
    while i < v.len()
        invariant
            t == version_texts(v@),
            v@ == old(v)@,
            i <= v@.len(),
            forall|j: int| 0 <= j < i ==> !for_kind(kind@)(#[trigger] t[j]),
        decreases v@.len() - i,
    {
        if str_eq(v[i].0.as_str(), kind) {
            proof {
                lemma_find_first_is(t, for_kind(kind@), i as int);
            }
            if str_eq(v[i].1.as_str(), version) {
                return None;
            } else {
                return Some(v[i].1.clone());
            }
        }
        i += 1;
    }
    proof {
        lemma_find_first_none(t, for_kind(kind@));
    }
    let mut pos: usize = 0;
    while pos < v.len() && !crate::order::str_lt(kind, v[pos].0.as_str())
        invariant
            t == version_texts(v@),
            v@ == old(v)@,
            pos <= v@.len(),
            forall|j: int| 0 <= j < pos ==> !kind_after()(#[trigger] t[j], (kind@, version@)),
        decreases v@.len() - pos,
    {
        pos += 1;
    }
    proof {
        lemma_insert_pos_is(t, (kind@, version@), kind_after(), pos as int);
    }
    v.insert(pos, (String::from_str(kind), String::from_str(version)));
    assert(version_texts(v@) =~= t.insert(pos as int, (kind@, version@)));
    None
}

fn gpioa_index(ps: &Vec<Peripheral>) -> (r: Option<usize>)
    ensures
        match r {
            Some(i) => i < ps@.len() && find_first(ps@, is_gpioa()) == Some(i as int),
            None => find_first(ps@, is_gpioa()) is None,
        },
{
    let mut i: usize = 0;
    while i < ps.len()
        invariant
            i <= ps@.len(),
            forall|j: int| 0 <= j < i ==> !is_gpioa()(#[trigger] ps@[j]),
        decreases ps@.len() - i,
    {
        if str_eq(ps[i].name.as_str(), "GPIOA") {
            proof {
                lemma_find_first_is(ps@, is_gpioa(), i as int);
            }
            return Some(i);
        }
        i += 1;
    }
    proof {
        lemma_find_first_none(ps@, is_gpioa());
    }
    None
}

/// The register block versions of a core's peripherals, each kind once, in kind order, or the
/// error the generator stops with: no `GPIOA`, a kind with two versions, or a GPIO block that
/// is not a whole number of port strides after `GPIOA`.
pub fn peripheral_versions(ps: &Vec<Peripheral>) -> (r: Result<Vec<(String, String)>, String>)
    ensures
        match spec_peripheral_versions(ps@) {
            Ok(s) => r matches Ok(v) && version_texts(v@) == s,
            Err(e) => r matches Err(t) && t@ == e,
        },
{
    let g = match gpioa_index(ps) {
        None => {
            return Err(String::from_str("GPIOA must exist"));
        },
        Some(g) => g,
    };
    let base = ps[g].address;
    let mut acc: Vec<(String, String)> = Vec::new();
    let mut k: usize = 0;
    assert(version_texts(acc@) =~= Seq::<KindVersion>::empty());
    while k < ps.len()
        invariant
            k <= ps@.len(),
            base == ps@[g as int].address,
            find_first(ps@, is_gpioa()) == Some(g as int),
            versions_from(ps@, k as int, base, version_texts(acc@)) == spec_peripheral_versions(ps@),
        decreases ps@.len() - k,
    {
        match &ps[k].registers {
            None => {},
            Some(r) => {
                match insert_version(&mut acc, r.kind.as_str(), r.version.as_str()) {
                    Some(old) => {
                        let mut out: Vec<char> = Vec::new();
                        push_str(&mut out, "Peripheral ");
                        push_str(&mut out, r.kind.as_str());
                        push_str(&mut out, " has multiple versions: ");
                        push_str(&mut out, old.as_str());
                        push_str(&mut out, " and ");
                        push_str(&mut out, r.version.as_str());
                        assert(out@ =~= msg_two_versions(r.kind@, old@, r.version@));
                        return Err(string_from_chars(&out));
                    },
                    None => {},
                }
                if str_eq(r.kind.as_str(), "gpio") {
                    let a = ps[k].address;
                    if a < base {
                        return Err(String::from_str("attempt to subtract with overflow"));
                    }
                    let rem = (a - base) % 0x400;
                    if rem != 0 {
                        let mut out: Vec<char> = Vec::new();
                        push_str(&mut out, "assertion `left == right` failed\n  left: 0\n right: ");
                        push_decimal(&mut out, rem as u64);
                        proof {
                            reveal_strlit("0");
                            reveal_strlit("assertion `left == right` failed\n  left: 0\n right: ");
                            reveal_strlit("assertion `left == right` failed\n  left: ");
                            reveal_strlit("\n right: ");
                        }
                        assert(out@ =~= msg_assert_eq("0"@, spec_decimal(rem as nat)));
                        return Err(string_from_chars(&out));
                    }
                }
            },
        }
        k += 1;
    }
    Ok(acc)
}

// ---------------------------------------------------------------------------------------------
// The extra code

/// The note of the deprecated flash constants.
pub open spec fn deprecation_note() -> Seq<char> {
    "use ch32_metapac::metadata::METADATA.memory (enable the `metadata` feature) instead"@
}

/// The `GPIO(n)` accessor for ports at `base`, a stride apart.
pub open spec fn gpio_text(base: u32) -> Seq<char> {
    "pub fn GPIO(n: usize) -> gpio::Gpio {\n            unsafe { gpio::Gpio::from_ptr(("@ + spec_decimal(base as nat)
        + " + 1024*n) as _) }\n        }"@
}

/// One module line per peripheral kind and version.
pub open spec fn path_lines(vs: Seq<KindVersion>) -> Seq<char>
    decreases vs.len(),
{
    if vs.len() == 0 {
        Seq::empty()
    } else {
        path_lines(vs.drop_last()) + "#[path=\"../../peripherals/"@ + vs.last().0 + "_"@ + vs.last().1
            + ".rs\"] pub mod "@ + vs.last().0 + ";\n"@
    }
}

/// A deprecated constant with its value.
pub open spec fn deprecated_const(name: Seq<char>, value: Seq<char>) -> Seq<char> {
    "#[deprecated(note = \""@ + deprecation_note() + "\")]\npub const "@ + name + ": usize = "@ + value + ";\n"@
}

/// The sum of the sizes of regions.
pub open spec fn total_size(rs: Seq<MemoryRegion>) -> nat
    decreases rs.len(),
{
    if rs.len() == 0 {
        0
    } else {
        total_size(rs.drop_last()) + (rs.last().size as nat)
    }
}

/// The write size of a flash region, if it has a fast mode.
pub open spec fn region_write_size(r: MemoryRegion) -> Option<u32> {
    match find_first(r.modes@, mode_is_fast()) {
        Some(i) => Some(r.modes@[i]->Fast_page_size),
        None => None,
    }
}

/// The distinct write sizes of the first `k` regions, in order of first appearance.
pub open spec fn distinct_write_sizes(rs: Seq<MemoryRegion>, k: int) -> Seq<u32>
    decreases k,
{
    if k <= 0 {
        Seq::empty()
    } else {
        let prev = distinct_write_sizes(rs, k - 1);
        let w = region_write_size(rs[k - 1])->Some_0;
        if prev.contains(w) {
            prev
        } else {
            prev.push(w)
        }
    }
}

/// The flash size and the one write size of the primary flash, or the error the generator stops
/// with: no primary flash, a total beyond 32 bits, a region without a write size, or regions
/// that disagree on it.
pub open spec fn spec_flash_constants(chip: Chip) -> Result<(nat, u32), Seq<char>> {
    let flash = filter_seq(chip.memory@, primary_flash());
    if flash.len() == 0 {
        Err("called `Option::unwrap()` on a `None` value"@)
    } else if total_size(flash) > u32::MAX {
        Err("attempt to add with overflow"@)
    } else if exists|i: int| 0 <= i < flash.len() && #[trigger] region_write_size(flash[i]) is None {
        Err("flash region needs a write size"@)
    } else if distinct_write_sizes(flash, flash.len() as int).len() != 1 {
        Err(msg_assert_eq("1"@, spec_decimal(distinct_write_sizes(flash, flash.len() as int).len())))
    } else {
        Ok((total_size(flash), region_write_size(flash[0])->Some_0))
    }
}


/// The extra code of a core and the register block versions of its peripherals, or the error
/// the generator stops with.
pub open spec fn spec_core_extra(chip: Chip, ps: Seq<Peripheral>, core_index: nat) -> Result<(Seq<KindVersion>, Seq<char>), Seq<char>> {
    match spec_peripheral_versions(ps) {
        Err(e) => Err(e),
        Ok(vs) => match spec_flash_constants(chip) {
            Err(e) => Err(e),
            Ok(c) => {
                let base = ps[find_first(ps, is_gpioa())->0].address;
                Ok((
                    vs,
                    gpio_text(base) + path_lines(vs) + "pub const CORE_INDEX: usize = "@ + spec_decimal(core_index) + ";\n"@
                        + deprecated_const("FLASH_BASE"@, "0"@) + deprecated_const("FLASH_SIZE"@, spec_decimal(c.0))
                        + deprecated_const("WRITE_SIZE"@, spec_decimal(c.1 as nat)),
                ))
            },
        },
    }
}

proof fn lemma_total_size_prefix(rs: Seq<MemoryRegion>, i: int, j: int)
    requires
        0 <= i <= j <= rs.len(),
    ensures
        total_size(rs.take(i)) <= total_size(rs.take(j)),
    decreases j - i,
{
    if i < j {
        lemma_total_size_prefix(rs, i, j - 1);
        assert(rs.take(j).drop_last() =~= rs.take(j - 1));
    }
}

fn flash_constants(chip: &Chip) -> (r: Result<(u32, u32), String>)
    ensures
        match spec_flash_constants(*chip) {
            Ok(c) => r matches Ok(x) && x.0 as nat == c.0 && x.1 == c.1,
            Err(e) => r matches Err(t) && t@ == e,
        },
{
    let flash = crate::generator::memory::primary_flash_regions(chip);
    let ghost fl = filter_seq(chip.memory@, primary_flash());
    assert(flash@.map_values(|x: &MemoryRegion| *x) == fl);
    assert(flash@.len() == fl.len());
    assert(forall|i: int| 0 <= i < fl.len() ==> #[trigger] fl[i] == *flash@[i]);
    if flash.len() == 0 {
        return Err(String::from_str("called `Option::unwrap()` on a `None` value"));
    }
    let mut total: u64 = 0;
    let mut i: usize = 0;
    assert(fl.take(0) =~= Seq::<MemoryRegion>::empty());
    while i < flash.len()
        invariant
            fl == filter_seq(chip.memory@, primary_flash()),
            flash@.len() == fl.len(),
            forall|j: int| 0 <= j < fl.len() ==> #[trigger] fl[j] == *flash@[j],
            i <= fl.len(),
            total == total_size(fl.take(i as int)),
            total <= u32::MAX,
        decreases fl.len() - i,
    {
        assert(fl.take(i + 1).drop_last() =~= fl.take(i as int));
        total = total + flash[i].size as u64;
        i += 1;
        if total > 0xffff_ffffu64 {
            proof {
                lemma_total_size_prefix(fl, i as int, fl.len() as int);
                assert(fl.take(fl.len() as int) =~= fl);
            }
            return Err(String::from_str("attempt to add with overflow"));
        }
    }
    assert(fl.take(fl.len() as int) =~= fl);
    let mut sizes: Vec<u32> = Vec::new();
    let mut i: usize = 0;
    while i < flash.len()
        invariant
            fl == filter_seq(chip.memory@, primary_flash()),
            flash@.len() == fl.len(),
            forall|j: int| 0 <= j < fl.len() ==> #[trigger] fl[j] == *flash@[j],
            i <= fl.len(),
            fl.len() > 0,
            total_size(fl) <= u32::MAX,
            total == total_size(fl),
            forall|j: int| 0 <= j < i ==> #[trigger] region_write_size(fl[j]) is Some,
            sizes@ == distinct_write_sizes(fl, i as int),
        decreases fl.len() - i,
    {
        let w = match flash_write_size(flash[i]) {
            None => {
                assert(region_write_size(fl[i as int]) is None);
                return Err(String::from_str("flash region needs a write size"));
            },
            Some(w) => w,
        };
        assert(region_write_size(fl[i as int]) == Some(w));
        let mut k: usize = 0;
        let mut seen = false;
        while k < sizes.len() && !seen
            invariant
                k <= sizes@.len(),
                seen ==> sizes@.contains(w),
                !seen ==> forall|j: int| 0 <= j < k ==> sizes@[j] != w,
            decreases sizes@.len() - k,
        {
            if sizes[k] == w {
                seen = true;
            }
            k += 1;
        }
        if !seen {
            assert(!sizes@.contains(w));
            sizes.push(w);
        }
        i += 1;
    }
    if sizes.len() != 1 {
        let mut out: Vec<char> = Vec::new();
        push_str(&mut out, "assertion `left == right` failed\n  left: 1\n right: ");
        push_decimal(&mut out, sizes.len() as u64);
        proof {
            reveal_strlit("1");
            reveal_strlit("assertion `left == right` failed\n  left: 1\n right: ");
            reveal_strlit("assertion `left == right` failed\n  left: ");
            reveal_strlit("\n right: ");
        }
        assert(out@ =~= msg_assert_eq("1"@, spec_decimal(sizes@.len())));
        return Err(string_from_chars(&out));
    }
    assert(region_write_size(fl[0]) == Some(sizes@[0])) by {
        lemma_first_size(fl, fl.len() as int);
    }
    Ok((total as u32, sizes[0]))
}

proof fn lemma_first_size(rs: Seq<MemoryRegion>, k: int)
    requires
        1 <= k <= rs.len(),
        forall|j: int| 0 <= j < k ==> #[trigger] region_write_size(rs[j]) is Some,
    ensures
        distinct_write_sizes(rs, k).len() >= 1,
        distinct_write_sizes(rs, k)[0] == region_write_size(rs[0])->Some_0,
    decreases k,
{
    if k > 1 {
        lemma_first_size(rs, k - 1);
    } else {
        assert(distinct_write_sizes(rs, 0) =~= Seq::<u32>::empty());
    }
}

fn push_deprecated(out: &mut Vec<char>, name: &str, value: u64)
    ensures
        final(out)@ == old(out)@ + deprecated_const(name@, spec_decimal(value as nat)),
{
    push_str(out, "#[deprecated(note = \"");
    push_str(out, "use ch32_metapac::metadata::METADATA.memory (enable the `metadata` feature) instead");
    push_str(out, "\")]\npub const ");
    push_str(out, name);
    push_str(out, ": usize = ");
    push_decimal(out, value);
    push_str(out, ";\n");
    assert(final(out)@ =~= old(out)@ + deprecated_const(name@, spec_decimal(value as nat)));
}

fn core_extra_checked(chip: &Chip, ps: &Vec<Peripheral>, core_index: usize) -> (r: Result<(Vec<(String, String)>, String), String>)
    ensures
        match spec_core_extra(*chip, ps@, core_index as nat) {
            Ok(v) => r matches Ok(x) && version_texts(x.0@) == v.0 && x.1@ == v.1,
            Err(e) => r matches Err(t) && t@ == e,
        },
{
    let versions = match peripheral_versions(ps) {
        Err(e) => {
            return Err(e);
        },
        Ok(v) => v,
    };
    let (total, write_size) = match flash_constants(chip) {
        Err(e) => {
            return Err(e);
        },
        Ok(c) => c,
    };
    let g = match gpioa_index(ps) {
        Some(g) => g,
        None => {
            return Err(String::new());
        },
    };
    let base = ps[g].address;
    let mut out: Vec<char> = Vec::new();
    push_str(&mut out, "pub fn GPIO(n: usize) -> gpio::Gpio {\n            unsafe { gpio::Gpio::from_ptr((");
    push_decimal(&mut out, base as u64);
    push_str(&mut out, " + 1024*n) as _) }\n        }");
    assert(out@ =~= gpio_text(base));
    let ghost vs = version_texts(versions@);
    let ghost head = out@;
    let mut i: usize = 0;
    while i < versions.len()
        invariant
            vs == version_texts(versions@),
            i <= versions@.len(),
            out@ == head + path_lines(vs.take(i as int)),
        decreases versions@.len() - i,
    {
        let ghost before = out@;
        push_str(&mut out, "#[path=\"../../peripherals/");
        push_str(&mut out, versions[i].0.as_str());
        push_str(&mut out, "_");
        push_str(&mut out, versions[i].1.as_str());
        push_str(&mut out, ".rs\"] pub mod ");
        push_str(&mut out, versions[i].0.as_str());
        push_str(&mut out, ";\n");
        i += 1;
        assert(vs.take(i as int).drop_last() =~= vs.take(i - 1));
        assert(out@ =~= head + path_lines(vs.take(i as int)));
    }
    assert(vs.take(versions@.len() as int) =~= vs);
    push_str(&mut out, "pub const CORE_INDEX: usize = ");
    push_decimal(&mut out, core_index as u64);
    push_str(&mut out, ";\n");
    push_deprecated(&mut out, "FLASH_BASE", 0);
    push_deprecated(&mut out, "FLASH_SIZE", total as u64);
    push_deprecated(&mut out, "WRITE_SIZE", write_size as u64);
    proof {
        reveal_strlit("0");
        assert(spec_decimal(0) =~= "0"@);
    }
    assert(out@ =~= spec_core_extra(*chip, ps@, core_index as nat)->Ok_0.1);
    Ok((versions, string_from_chars(&out)))
}

/// The error with which the generator stops on a core, if any (see [`core_extra`]).
pub fn core_extra_error(chip: &Chip, ps: &Vec<Peripheral>, core_index: usize) -> (r: Option<String>)
    ensures
        match spec_core_extra(*chip, ps@, core_index as nat) {
            Ok(_) => r is None,
            Err(e) => r matches Some(t) && t@ == e,
        },
{
    match core_extra_checked(chip, ps, core_index) {
        Ok(_) => None,
        Err(e) => Some(e),
    }
}

/// The register block versions of a core's peripherals (each kind once, in kind order) and the
/// code its register-access module gets besides the registers: a `GPIO(n)` accessor for ports
/// from `GPIOA` a stride apart, a module path per kind and version, the core index, and the
/// deprecated flash base, size (of the primary flash) and write size.
pub fn core_extra(chip: &Chip, ps: &Vec<Peripheral>, core_index: usize) -> (r: (Vec<(String, String)>, String))
    requires
        spec_core_extra(*chip, ps@, core_index as nat) is Ok,
    ensures
        version_texts(r.0@) == spec_core_extra(*chip, ps@, core_index as nat)->Ok_0.0,
        r.1@ == spec_core_extra(*chip, ps@, core_index as nat)->Ok_0.1,
{
    match core_extra_checked(chip, ps, core_index) {
        Ok(v) => v,
        Err(_) => (Vec::new(), String::new()),
    }
}

} // verus!
