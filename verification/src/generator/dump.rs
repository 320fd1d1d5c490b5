//! The memory variants of a chip as render regions, and the bank prefixes that can be split.
use vstd::prelude::*;

use crate::generator::chip::{build_memory_options, memory_options_defined, spec_build_memory_options};
use crate::generator::data::{Chip, MemoryOption, MemoryOptionView};
use crate::generator::memory::{access_str, kind_str, memory_for_option, spec_access_str, spec_kind_str, spec_memory_for_option};
use crate::mem_layout::{region_views, MemoryRegion, MemoryRegionView};
use crate::memory_x_render::{spec_split_name, split_name, views, Region, RegionView};
use crate::order::{filter_seq, insert_sorted_unique, insert_text, lemma_filter_push, strictly_sorted, texts};
use crate::text::{ascii_lowercase, spec_strip_suffix, strip_suffix, to_ascii_lowercase};

verus! {

/// One memory variant of a chip, as render regions.
pub struct ChipOption {
    pub name: String,
    pub regions: Vec<Region>,
}

/// All memory variants of a chip, and the one that applies by default.
pub struct ChipDump {
    pub name: String,
    pub default_option: String,
    pub options: Vec<ChipOption>,
}

/// The lower-cased bank prefix of a region name (`usr` for `USR_1`), if it has one.
pub open spec fn name_prefix(n: Seq<char>) -> Option<Seq<char>> {
    match spec_split_name(n) {
        Some((p, _)) => Some(ascii_lowercase(p)),
        None => None,
    }
}

/// Predicate: the name has the lower-cased bank prefix `p`.
pub open spec fn has_prefix(p: Seq<char>) -> spec_fn(Seq<char>) -> bool {
    |n: Seq<char>| name_prefix(n) == Some(p)
}

/// How many of the names have the lower-cased bank prefix `p`.
pub open spec fn prefix_count(names: Seq<Seq<char>>, p: Seq<char>) -> nat {
    filter_seq(names, has_prefix(p)).len()
}

/// The shared bank prefixes of the first `i` names, in the order the names give them, each
/// added at its place in text order.
pub open spec fn prefix_fold(names: Seq<Seq<char>>, i: int) -> Seq<Seq<char>>
    decreases i,
{
    if i <= 0 {
        Seq::empty()
    } else {
        let prev = prefix_fold(names, i - 1);
        match name_prefix(names[i - 1]) {
            Some(q) => if prefix_count(names, q) >= 2 {
                insert_text(prev, q)
            } else {
                prev
            },
            None => prev,
        }
    }
}

/// The lower-cased bank prefixes that at least two names share, each once, in text order.
pub open spec fn spec_split_prefixes(names: Seq<Seq<char>>) -> Seq<Seq<char>> {
    prefix_fold(names, names.len() as int)
}

/// The texts of a sequence of string slices.
pub open spec fn str_texts(s: Seq<&str>) -> Seq<Seq<char>> {
    s.map_values(|t: &str| t@)
}

proof fn lemma_filter_witness<A>(s: Seq<A>, p: spec_fn(A) -> bool)
    requires
        filter_seq(s, p).len() > 0,
    ensures
        exists|i: int| 0 <= i < s.len() && p(#[trigger] s[i]),
    decreases s.len(),
{
    if p(s.last()) {
        assert(p(s[s.len() - 1]));
    } else {
        lemma_filter_witness(s.drop_last(), p);
        let i = choose|i: int| 0 <= i < s.drop_last().len() && p(#[trigger] s.drop_last()[i]);
        assert(s[i] == s.drop_last()[i]);
    }
}

fn count_prefix(prefixes: &Vec<Option<String>>, p: &str, Ghost(names): Ghost<Seq<Seq<char>>>) -> (r: usize)
    requires
        prefixes@.len() == names.len(),
        forall|k: int| 0 <= k < names.len() ==> match #[trigger] prefixes@[k] {
            Some(q) => name_prefix(names[k]) == Some(q@),
            None => name_prefix(names[k]) is None,
        },
    ensures
        r == prefix_count(names, p@),
{
    let mut c: usize = 0;
    let mut j: usize = 0;
    while j < prefixes.len()
        invariant
            prefixes@.len() == names.len(),
            forall|k: int| 0 <= k < names.len() ==> match #[trigger] prefixes@[k] {
                Some(q) => name_prefix(names[k]) == Some(q@),
                None => name_prefix(names[k]) is None,
            },
            j <= names.len(),
            c == filter_seq(names.take(j as int), has_prefix(p@)).len(),
            c <= j,
        decreases names.len() - j,
    {
        proof {
            lemma_filter_push(names, j as int, has_prefix(p@));
        }
        let hit = match &prefixes[j] {
            Some(q) => crate::mem_layout::str_eq(q.as_str(), p),
            None => false,
        };
        assert(hit == has_prefix(p@)(names[j as int]));
        if hit {
            c += 1;
        }
        j += 1;
    }
    assert(names.take(names.len() as int) =~= names);
    c
}

/// The lower-cased bank prefixes that at least two of the names share (the banks that a build
/// can keep apart), each once, in lexicographic order.
pub fn split_prefixes_from_names(names: &[&str]) -> (r: Vec<String>)
    ensures
        texts(r@) == spec_split_prefixes(str_texts(names@)),
        strictly_sorted(texts(r@)),
        forall|p: Seq<char>| texts(r@).contains(p) <==> prefix_count(str_texts(names@), p) >= 2,
{
    let ghost ns = str_texts(names@);
    let mut prefixes: Vec<Option<String>> = Vec::new();
    let mut i: usize = 0;
    while i < names.len()
        invariant
            ns == str_texts(names@),
            i <= names@.len(),
            prefixes@.len() == i,
            forall|k: int| 0 <= k < i ==> match #[trigger] prefixes@[k] {
                Some(q) => name_prefix(ns[k]) == Some(q@),
                None => name_prefix(ns[k]) is None,
            },
        decreases names@.len() - i,
    {
        let p = match split_name(names[i]) {
            Some((prefix, _)) => Some(to_ascii_lowercase(prefix)),
            None => None,
        };
        prefixes.push(p);
        i += 1;
    }
    let mut out: Vec<String> = Vec::new();
    let mut i: usize = 0;
    while i < prefixes.len()
        invariant
            ns == str_texts(names@),
            prefixes@.len() == ns.len(),
            forall|k: int| 0 <= k < ns.len() ==> match #[trigger] prefixes@[k] {
                Some(q) => name_prefix(ns[k]) == Some(q@),
                None => name_prefix(ns[k]) is None,
            },
            i <= ns.len(),
            texts(out@) == prefix_fold(ns, i as int),
            strictly_sorted(texts(out@)),
            forall|p: Seq<char>| texts(out@).contains(p) <==> (prefix_count(ns, p) >= 2 && exists|k: int|
                0 <= k < i && #[trigger] name_prefix(ns[k]) == Some(p)),
        decreases ns.len() - i,
    {
        match &prefixes[i] {
            Some(q) => {
                let n = count_prefix(&prefixes, q.as_str(), Ghost(ns));
                if n >= 2 {
                    let ghost before = texts(out@);
                    insert_sorted_unique(&mut out, q.clone());
                    assert forall|p: Seq<char>| texts(out@).contains(p) <==> (prefix_count(ns, p) >= 2 && exists|k: int|
                        0 <= k < i + 1 && #[trigger] name_prefix(ns[k]) == Some(p)) by {
                        if p == q@ {
                            assert(name_prefix(ns[i as int]) == Some(p));
                        }
                        if exists|k: int| 0 <= k < i + 1 && #[trigger] name_prefix(ns[k]) == Some(p) {
                            let k = choose|k: int| 0 <= k < i + 1 && #[trigger] name_prefix(ns[k]) == Some(p);
                            if k == i {
                                assert(p == q@);
                            }
                        }
                    }
                } else {
                    assert forall|p: Seq<char>| texts(out@).contains(p) <==> (prefix_count(ns, p) >= 2 && exists|k: int|
                        0 <= k < i + 1 && #[trigger] name_prefix(ns[k]) == Some(p)) by {
                        if exists|k: int| 0 <= k < i + 1 && #[trigger] name_prefix(ns[k]) == Some(p) {
                            let k = choose|k: int| 0 <= k < i + 1 && #[trigger] name_prefix(ns[k]) == Some(p);
                            if k == i {
                                assert(p == q@);
                            }
                        }
                    }
                }
            },
            None => {
                assert forall|p: Seq<char>| texts(out@).contains(p) <==> (prefix_count(ns, p) >= 2 && exists|k: int|
                    0 <= k < i + 1 && #[trigger] name_prefix(ns[k]) == Some(p)) by {
                    if exists|k: int| 0 <= k < i + 1 && #[trigger] name_prefix(ns[k]) == Some(p) {
                        let k = choose|k: int| 0 <= k < i + 1 && #[trigger] name_prefix(ns[k]) == Some(p);
                        if k == i {
                            assert(name_prefix(ns[i as int]) is None);
                        }
                    }
                }
            },
        }
        i += 1;
    }
    assert forall|p: Seq<char>| texts(out@).contains(p) <==> prefix_count(ns, p) >= 2 by {
        if prefix_count(ns, p) >= 2 {
            lemma_filter_witness(ns, has_prefix(p));
            let k = choose|k: int| 0 <= k < ns.len() && has_prefix(p)(#[trigger] ns[k]);
            assert(name_prefix(ns[k]) == Some(p));
        }
    }
    out
}

/// The render region of a generated region: its name, address and size, access text and kind
/// text.
pub open spec fn render_view(r: MemoryRegionView) -> RegionView {
    RegionView {
        name: r.name,
        address: r.address,
        size: r.size,
        access: spec_access_str(r.access),
        kind: spec_kind_str(r.kind),
    }
}

/// The render region of a generated region.
pub fn to_render_region(r: &MemoryRegion) -> (o: Region)
    ensures
        o@ == render_view(r@),
{
    Region {
        name: r.name.clone(),
        address: r.address,
        size: r.size,
        access: access_str(r.access.as_ref()),
        kind: String::from_str(kind_str(&r.kind)),
    }
}

fn render_regions(memory: &Vec<MemoryRegion>) -> (r: Vec<Region>)
    ensures
        views(r@) == region_views(memory@).map_values(|m: MemoryRegionView| render_view(m)),
{
    let ghost target = region_views(memory@).map_values(|m: MemoryRegionView| render_view(m));
    let mut out: Vec<Region> = Vec::new();
    let mut i: usize = 0;
    while i < memory.len()
        invariant
            target == region_views(memory@).map_values(|m: MemoryRegionView| render_view(m)),
            i <= memory@.len(),
            views(out@) == target.take(i as int),
        decreases memory@.len() - i,
    {
        let ghost prev = out@;
        let x = to_render_region(&memory[i]);
        out.push(x);
        i += 1;
        assert(views(out@) =~= views(prev).push(x@));
        assert(target.take(i as int) =~= target.take(i - 1).push(target[i - 1]));
    }
    assert(target.take(i as int) =~= target);
    out
}

/// The render regions of a chip in one memory variant.
pub open spec fn option_regions(chip: Chip, opt: MemoryOptionView) -> Seq<RegionView> {
    spec_memory_for_option(region_views(chip.memory@), opt).map_values(|m: MemoryRegionView| render_view(m))
}

/// The default memory variant that a chip states, else `default`.
pub open spec fn spec_default_option(chip: Chip) -> Seq<char> {
    match chip.default_memory_option {
        Some(d) => d@,
        None => "default"@,
    }
}

/// All memory variants of a chip as render regions, in the order of
/// [`crate::generator::chip::build_memory_options`], and the default variant.
pub fn chip_dump(chip: &Chip) -> (d: ChipDump)
    requires
        memory_options_defined(*chip),
        crate::chip::keys_ascending(chip.memory_sizes@),
    ensures
        d.name@ == chip.name@,
        d.default_option@ == spec_default_option(*chip),
        d.options@.len() == spec_build_memory_options(*chip).len(),
        forall|i: int| 0 <= i < d.options@.len() ==> {
            &&& (#[trigger] d.options@[i]).name@ == spec_build_memory_options(*chip)[i].name
            &&& views(d.options@[i].regions@) == option_regions(*chip, spec_build_memory_options(*chip)[i])
        },
{
    let options = build_memory_options(chip);
    let ghost target = spec_build_memory_options(*chip);
    let default_option = match &chip.default_memory_option {
        Some(d) => d.clone(),
        None => String::from_str("default"),
    };
    let mut out: Vec<ChipOption> = Vec::new();
    let mut i: usize = 0;
    while i < options.len()
        invariant
            crate::generator::data::option_views(options@) == target,
            i <= options@.len(),
            out@.len() == i,
            forall|k: int| 0 <= k < i ==> {
                &&& (#[trigger] out@[k]).name@ == target[k].name
                &&& views(out@[k].regions@) == option_regions(*chip, target[k])
            },
        decreases options@.len() - i,
    {
        let opt: &MemoryOption = &options[i];
        assert(opt@ == target[i as int]);
        let memory = memory_for_option(chip, opt);
        let regions = render_regions(&memory);
        out.push(ChipOption { name: opt.name.clone(), regions });
        i += 1;
    }
    ChipDump { name: chip.name.clone(), default_option, options: out }
}

/// The chip name of a chip file name: the name without its `.json` suffix.
pub open spec fn chip_file_name(file_name: Seq<char>) -> Option<Seq<char>> {
    spec_strip_suffix(file_name, ".json"@)
}

/// The chip names of the chip files among `file_names`: every name that ends in `.json`, without
/// it, in order and each once (the file names of one directory are distinct, so no name is lost).
pub fn chip_names(file_names: &Vec<String>) -> (r: Vec<String>)
    ensures
        strictly_sorted(texts(r@)),
        forall|t: Seq<char>| texts(r@).contains(t) <==> exists|i: int|
            0 <= i < file_names@.len() && chip_file_name(#[trigger] file_names@[i]@) == Some(t),
{
    let mut out: Vec<String> = Vec::new();
    let mut i: usize = 0;
    while i < file_names.len()
        invariant
            i <= file_names@.len(),
            strictly_sorted(texts(out@)),
            forall|t: Seq<char>| texts(out@).contains(t) <==> exists|j: int|
                0 <= j < i && chip_file_name(#[trigger] file_names@[j]@) == Some(t),
        decreases file_names@.len() - i,
    {
        match strip_suffix(file_names[i].as_str(), ".json") {
            Some(name) => {
                let ghost before = texts(out@);
                insert_sorted_unique(&mut out, name.to_string());
                assert forall|t: Seq<char>| texts(out@).contains(t) <==> exists|j: int|
                    0 <= j < i + 1 && chip_file_name(#[trigger] file_names@[j]@) == Some(t) by {
                    if texts(out@).contains(t) && !before.contains(t) {
                        assert(chip_file_name(file_names@[i as int]@) == Some(t));
                    }
                }
            },
            None => {
                assert forall|t: Seq<char>| texts(out@).contains(t) <==> exists|j: int|
                    0 <= j < i + 1 && chip_file_name(#[trigger] file_names@[j]@) == Some(t) by {
                    if exists|j: int| 0 <= j < i + 1 && chip_file_name(#[trigger] file_names@[j]@) == Some(t) {
                        let j = choose|j: int| 0 <= j < i + 1 && chip_file_name(#[trigger] file_names@[j]@) == Some(t);
                        assert(j != i);
                    }
                }
            },
        }
        i += 1;
    }
    out
}

} // verus!
