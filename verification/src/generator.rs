//! The generator of the chip-support crate: memory variants, the regions files it writes and the
//! state it gathers over chips.
pub mod data;
pub mod memory;
pub mod chip;
pub mod dump;
pub mod pac;
pub mod laws;
pub mod pac_laws;
pub mod core_extra;
pub mod render;

use vstd::prelude::*;

use crate::fmt::{push_decimal, push_str, spaces, spec_decimal, string_from_chars};
use crate::generator::data::{option_views, Chip, MemoryOption};
use crate::generator::dump::{prefix_count, split_prefixes_from_names, str_texts};
use crate::generator::core_extra::version_texts;
use crate::generator::render::{metadata_module, spec_metadata_module};
use crate::mem_layout::{str_eq, MemoryRegion};
use crate::order::{insert_sorted_unique, strictly_sorted, texts};
use crate::text::{ascii_lowercase, to_ascii_lowercase};

verus! {

#[verifier::external_type_specification]
#[verifier::external_body]
pub struct ExPathBuf(std::path::PathBuf);

/// What to generate: the chips, where to write and where the chip data is.
pub struct Options {
    pub chips: Vec<String>,
    pub out_dir: std::path::PathBuf,
    pub data_dir: std::path::PathBuf,
}

/// The generator and what it gathers over the chips: the register blocks and non-volatile
/// structures to emit (kind and version, each once), the metadata files written so far (by
/// content), and the memory features of the generated crate (each once, in order).
pub struct Gen {
    pub opts: Options,
    pub all_peripheral_versions: Vec<(String, String)>,
    pub all_nv_versions: Vec<(String, String)>,
    pub metadata_dedup: Vec<(String, String)>,
    pub memory_option_features: Vec<String>,
    pub memory_split_prefixes: Vec<String>,
}

/// The texts of a sequence of string pairs.
pub open spec fn pair_texts(s: Seq<(String, String)>) -> Seq<(Seq<char>, Seq<char>)> {
    s.map_values(|p: (String, String)| (p.0@, p.1@))
}

/// No pair occurs twice.
pub open spec fn distinct_pairs(s: Seq<(Seq<char>, Seq<char>)>) -> bool {
    forall|i: int, j: int| 0 <= i < j < s.len() ==> s[i] != s[j]
}

/// No key occurs twice.
pub open spec fn distinct_keys(s: Seq<(Seq<char>, Seq<char>)>) -> bool {
    forall|i: int, j: int| 0 <= i < j < s.len() ==> s[i].0 != s[j].0
}

/// The name of a metadata file: `metadata_`, the number with at least four digits, `.rs`.
pub open spec fn metadata_file_name(n: nat) -> Seq<char> {
    "metadata_"@ + Seq::new(
        if spec_decimal(n).len() < 4 { (4 - spec_decimal(n).len()) as nat } else { 0 },
        |i: int| '0',
    ) + spec_decimal(n) + ".rs"@
}

/// The names of the chip-and-core targets: the chip's name for a single-core chip, else the chip's
/// name, `-` and the core's name.
pub open spec fn spec_chip_core_name(chip: Seq<char>, cores: nat, core: Seq<char>) -> Seq<char> {
    if cores == 1 {
        chip
    } else {
        chip + "-"@ + core
    }
}

/// The name of one chip-and-core target.
pub fn chip_core_name(chip: &str, cores: usize, core: &str) -> (r: String)
    ensures
        r@ == spec_chip_core_name(chip@, cores as nat, core@),
{
    if cores == 1 {
        String::from_str(chip)
    } else {
        let mut out: Vec<char> = Vec::new();
        push_str(&mut out, chip);
        push_str(&mut out, "-");
        push_str(&mut out, core);
        assert(out@ =~= chip@ + "-"@ + core@);
        string_from_chars(&out)
    }
}

/// The placeholder that stands for the register description of `kind` in metadata until it is
/// emitted.
pub open spec fn spec_ir_placeholder(kind: Seq<char>) -> Seq<char> {
    ":ir_for:"@ + kind + ":"@
}

/// The placeholder for the register description of `kind`.
pub fn ir_placeholder(kind: &str) -> (r: String)
    ensures
        r@ == spec_ir_placeholder(kind@),
{
    let mut out: Vec<char> = Vec::new();
    push_str(&mut out, ":ir_for:");
    push_str(&mut out, kind);
    push_str(&mut out, ":");
    assert(out@ =~= spec_ir_placeholder(kind@));
    string_from_chars(&out)
}

/// A linker script line per interrupt that sends it to the default handler.
pub open spec fn spec_device_x(names: Seq<Seq<char>>) -> Seq<char>
    decreases names.len(),
{
    if names.len() == 0 {
        Seq::empty()
    } else {
        spec_device_x(names.drop_last()) + "PROVIDE("@ + names.last() + " = DefaultHandler);"@ + seq!['\n']
    }
}

/// The `device.x` text for the interrupts `names`.
pub fn device_x(names: &Vec<String>) -> (r: String)
    ensures
        r@ == spec_device_x(texts(names@)),
{
    let ghost v = texts(names@);
    let mut out: Vec<char> = Vec::new();
    let mut i: usize = 0;
    while i < names.len()
        invariant
            v == texts(names@),
            i <= names@.len(),
            out@ == spec_device_x(v.take(i as int)),
        decreases names@.len() - i,
    {
        let ghost before = out@;
        push_str(&mut out, "PROVIDE(");
        push_str(&mut out, names[i].as_str());
        push_str(&mut out, " = DefaultHandler);");
        out.push('\n');
        i += 1;
        assert(v.take(i as int).drop_last() =~= v.take(i - 1));
        assert(out@ =~= spec_device_x(v.take(i as int)));
    }
    assert(v.take(names@.len() as int) =~= v);
    string_from_chars(&out)
}

/// Adds a pair to a set of pairs, unless it is already there.
pub fn insert_pair(set: &mut Vec<(String, String)>, a: String, b: String)
    requires
        distinct_pairs(pair_texts(old(set)@)),
    ensures
        distinct_pairs(pair_texts(final(set)@)),
        forall|p: (Seq<char>, Seq<char>)| pair_texts(final(set)@).contains(p) <==> (pair_texts(old(set)@).contains(p)
            || p == (a@, b@)),
{
    let ghost t = pair_texts(set@);
    let mut i: usize = 0;
    while i < set.len()
        invariant
            set@ == old(set)@,
            distinct_pairs(pair_texts(old(set)@)),
            t == pair_texts(set@),
            i <= set@.len(),
            forall|j: int| 0 <= j < i ==> t[j] != (a@, b@),
        decreases set@.len() - i,
    {
        if str_eq(set[i].0.as_str(), a.as_str()) && str_eq(set[i].1.as_str(), b.as_str()) {
            assert(t[i as int] == (a@, b@));
            return;
        }
        i += 1;
    }
    set.push((a, b));
    let ghost n = pair_texts(set@);
    assert(n =~= t.push((a@, b@)));
    assert forall|x: int, y: int| 0 <= x < y < n.len() implies n[x] != n[y] by {
        if y == t.len() {
            assert(t[x] != (a@, b@));
        }
    }
    assert forall|p: (Seq<char>, Seq<char>)| n.contains(p) <==> (t.contains(p) || p == (a@, b@)) by {
        if n.contains(p) {
            let k = choose|k: int| 0 <= k < n.len() && n[k] == p;
            if k < t.len() {
                assert(t[k] == p);
            }
        }
        if t.contains(p) {
            let k = choose|k: int| 0 <= k < t.len() && t[k] == p;
            assert(n[k] == p);
        }
        if p == (a@, b@) {
            assert(n[t.len() as int] == p);
        }
    }
}

/// The feature lines of the generated crate's manifest: one per chip-and-core target (lower-cased),
/// then, after a blank line, one per memory variant, then, after a blank line, one per bank
/// prefix that can be split (which needs `memory-x`).
pub open spec fn spec_cargo_features(targets: Seq<Seq<char>>, options: Seq<Seq<char>>, splits: Seq<Seq<char>>) -> Seq<char> {
    lines_of(targets, line_fn(""@, " = []"@, true))
        + (if options.len() == 0 { Seq::empty() } else { seq!['\n'] + lines_of(options, line_fn("memory-config-"@, " = []"@, false)) })
        + (if splits.len() == 0 { Seq::empty() } else { seq!['\n'] + lines_of(splits, line_fn("memory-split-"@, " = [\"memory-x\"]"@, false)) })
}

/// A line made of `before`, the text (lower-cased with `lower`) and `after`.
pub open spec fn line_fn(before: Seq<char>, after: Seq<char>, lower: bool) -> spec_fn(Seq<char>) -> Seq<char> {
    |t: Seq<char>| before + (if lower { ascii_lowercase(t) } else { t }) + after
}

/// One line, as `f` makes it, per element.
pub open spec fn lines_of(s: Seq<Seq<char>>, f: spec_fn(Seq<char>) -> Seq<char>) -> Seq<char>
    decreases s.len(),
{
    if s.len() == 0 {
        Seq::empty()
    } else {
        lines_of(s.drop_last(), f) + f(s.last()) + seq!['\n']
    }
}

fn push_lines(out: &mut Vec<char>, items: &Vec<String>, before: &str, after: &str, lower: bool)
    ensures
        final(out)@ == old(out)@ + lines_of(texts(items@), line_fn(before@, after@, lower)),
{
    let ghost f = line_fn(before@, after@, lower);
    let ghost v = texts(items@);
    let mut i: usize = 0;
    while i < items.len()
        invariant
            v == texts(items@),
            f == line_fn(before@, after@, lower),
            i <= items@.len(),
            out@ == old(out)@ + lines_of(v.take(i as int), f),
        decreases items@.len() - i,
    {
        let ghost start = out@;
        push_str(out, before);
        if lower {
            let l = to_ascii_lowercase(items[i].as_str());
            push_str(out, l.as_str());
        } else {
            push_str(out, items[i].as_str());
        }
        push_str(out, after);
        out.push('\n');
        i += 1;
        assert(v.take(i as int).drop_last() =~= v.take(i - 1));
        assert(out@ =~= start + f(v[i - 1]) + seq!['\n']);
    }
    assert(v.take(items@.len() as int) =~= v);
}

impl Gen {
    /// The generator keeps its feature sets in order, each name once, and its version sets
    /// without repeats.
    pub open spec fn wf(&self) -> bool {
        &&& strictly_sorted(texts(self.memory_option_features@))
        &&& strictly_sorted(texts(self.memory_split_prefixes@))
        &&& distinct_pairs(pair_texts(self.all_peripheral_versions@))
        &&& distinct_pairs(pair_texts(self.all_nv_versions@))
        &&& distinct_keys(pair_texts(self.metadata_dedup@))
    }

    /// A generator for `opts` that has gathered nothing yet.
    pub fn new(opts: Options) -> (g: Self)
        ensures
            g.wf(),
            g.opts == opts,
            g.all_peripheral_versions@.len() == 0,
            g.all_nv_versions@.len() == 0,
            g.metadata_dedup@.len() == 0,
            g.memory_option_features@.len() == 0,
            g.memory_split_prefixes@.len() == 0,
    {
        Self {
            opts,
            all_peripheral_versions: Vec::new(),
            all_nv_versions: Vec::new(),
            metadata_dedup: Vec::new(),
            memory_option_features: Vec::new(),
            memory_split_prefixes: Vec::new(),
        }
    }

    /// Records the memory features of one chip: every variant name where the chip has more than
    /// one variant, and every bank prefix that at least two of its regions share.
    pub fn note_memory_features(&mut self, chip: &Chip, options: &Vec<MemoryOption>)
        requires
            old(self).wf(),
        ensures
            final(self).wf(),
            final(self).opts == old(self).opts,
            final(self).all_peripheral_versions == old(self).all_peripheral_versions,
            final(self).all_nv_versions == old(self).all_nv_versions,
            final(self).metadata_dedup == old(self).metadata_dedup,
            forall|t: Seq<char>| texts(final(self).memory_option_features@).contains(t) <==> (
                texts(old(self).memory_option_features@).contains(t)
                || (options@.len() > 1 && option_names(options@).contains(t))),
            forall|t: Seq<char>| texts(final(self).memory_split_prefixes@).contains(t) <==> (
                texts(old(self).memory_split_prefixes@).contains(t)
                || prefix_count(region_names(chip.memory@), t) >= 2),
    {
        if options.len() > 1 {
            let mut names: Vec<String> = Vec::new();
            let mut i: usize = 0;
            while i < options.len()
                invariant
                    i <= options@.len(),
                    texts(names@) == option_names(options@).take(i as int),
                decreases options@.len() - i,
            {
                let ghost prev = names@;
                names.push(options[i].name.clone());
                i += 1;
                assert(texts(names@) =~= texts(prev).push(options@[i - 1].name@));
                assert(option_names(options@).take(i as int) =~= option_names(options@).take(i - 1).push(options@[i - 1].name@));
            }
            assert(option_names(options@).take(i as int) =~= option_names(options@));
            assert(texts(names@) == option_names(options@));
            insert_all_sorted(&mut self.memory_option_features, &names);
        }
        let mut names: Vec<&str> = Vec::new();
        let mut i: usize = 0;
        while i < chip.memory.len()
            invariant
                i <= chip.memory@.len(),
                str_texts(names@) == region_names(chip.memory@.take(i as int)),
            decreases chip.memory@.len() - i,
        {
            let ghost prev = names@;
            names.push(chip.memory[i].name.as_str());
            i += 1;
            assert(str_texts(names@) =~= str_texts(prev).push(chip.memory@[i - 1].name@));
            assert(chip.memory@.take(i as int) =~= chip.memory@.take(i - 1).push(chip.memory@[i - 1]));
            assert(region_names(chip.memory@.take(i as int)) =~= region_names(chip.memory@.take(i - 1)).push(
                chip.memory@[i - 1].name@,
            ));
        }
        assert(chip.memory@.take(chip.memory@.len() as int) =~= chip.memory@);
        assert(str_texts(names@) == region_names(chip.memory@));
        let prefixes = split_prefixes_from_names(names.as_slice());
        let ghost before_split = texts(self.memory_split_prefixes@);
        assert(before_split == texts(old(self).memory_split_prefixes@));
        insert_all_sorted(&mut self.memory_split_prefixes, &prefixes);
        assert forall|t: Seq<char>| texts(self.memory_split_prefixes@).contains(t) <==> (
            before_split.contains(t) || prefix_count(region_names(chip.memory@), t) >= 2) by {
            assert(texts(self.memory_split_prefixes@).contains(t) <==> (before_split.contains(t) || texts(prefixes@).contains(t)));
            assert(texts(prefixes@).contains(t) <==> prefix_count(str_texts(names@), t) >= 2);
        }
    }

    /// Records the register block (or non-volatile structure, with `nv`) of `kind` at
    /// `version` as one to emit.
    pub fn note_version(&mut self, kind: String, version: String, nv: bool)
        requires
            old(self).wf(),
        ensures
            final(self).wf(),
            final(self).opts == old(self).opts,
            final(self).memory_option_features == old(self).memory_option_features,
            final(self).memory_split_prefixes == old(self).memory_split_prefixes,
            final(self).metadata_dedup == old(self).metadata_dedup,
            nv ==> final(self).all_peripheral_versions == old(self).all_peripheral_versions,
            !nv ==> final(self).all_nv_versions == old(self).all_nv_versions,
            forall|p: (Seq<char>, Seq<char>)| #![auto] nv ==> (pair_texts(final(self).all_nv_versions@).contains(p) <==> (
                pair_texts(old(self).all_nv_versions@).contains(p) || p == (kind@, version@))),
            forall|p: (Seq<char>, Seq<char>)| #![auto] !nv ==> (pair_texts(final(self).all_peripheral_versions@).contains(p) <==> (
                pair_texts(old(self).all_peripheral_versions@).contains(p) || p == (kind@, version@))),
    {
        if nv {
            insert_pair(&mut self.all_nv_versions, kind, version);
        } else {
            insert_pair(&mut self.all_peripheral_versions, kind, version);
        }
    }

    /// The metadata file for the metadata text `data`: the file already written with this text,
    /// else a new file numbered by how many were written before (and `true`).
    pub fn metadata_file(&mut self, data: String) -> (r: (String, bool))
        requires
            old(self).wf(),
        ensures
            final(self).wf(),
            final(self).opts == old(self).opts,
            final(self).memory_option_features == old(self).memory_option_features,
            final(self).memory_split_prefixes == old(self).memory_split_prefixes,
            final(self).all_peripheral_versions == old(self).all_peripheral_versions,
            final(self).all_nv_versions == old(self).all_nv_versions,
            match crate::search::find_first(pair_texts(old(self).metadata_dedup@), key_is(data@)) {
                Some(i) => !r.1 && r.0@ == pair_texts(old(self).metadata_dedup@)[i].1
                    && final(self).metadata_dedup == old(self).metadata_dedup,
                None => r.1 && r.0@ == metadata_file_name(old(self).metadata_dedup@.len())
                    && pair_texts(final(self).metadata_dedup@) == pair_texts(old(self).metadata_dedup@).push((data@, r.0@)),
            },
    {
        let ghost t = pair_texts(self.metadata_dedup@);
        let mut i: usize = 0;
        while i < self.metadata_dedup.len()
            invariant
                *self == *old(self),
                old(self).wf(),
                t == pair_texts(self.metadata_dedup@),
                i <= t.len(),
                forall|j: int| 0 <= j < i ==> !key_is(data@)(#[trigger] t[j]),
            decreases t.len() - i,
        {
            if str_eq(self.metadata_dedup[i].0.as_str(), data.as_str()) {
                proof {
                    crate::search::lemma_find_first_is(t, key_is(data@), i as int);
                }
                return (self.metadata_dedup[i].1.clone(), false);
            }
            i += 1;
        }
        proof {
            crate::search::lemma_find_first_none(t, key_is(data@));
        }
        let n = self.metadata_dedup.len();
        let mut out: Vec<char> = Vec::new();
        push_str(&mut out, "metadata_");
        let digits = crate::fmt::decimal_chars(n as u64);
        let mut k: usize = digits.len();
        while k < 4
            invariant
                digits.len() <= k <= 4 || k == digits.len(),
                out@ == "metadata_"@ + Seq::new((k - digits@.len()) as nat, |i: int| '0'),
            decreases 4 - k,
        {
            out.push('0');
            k += 1;
            assert(out@ =~= "metadata_"@ + Seq::new((k - digits@.len()) as nat, |i: int| '0'));
        }
        crate::fmt::push_chars(&mut out, &digits);
        push_str(&mut out, ".rs");
        assert(out@ =~= metadata_file_name(n as nat));
        let name = string_from_chars(&out);
        let ghost old_t = pair_texts(self.metadata_dedup@);
        self.metadata_dedup.push((data, name.clone()));
        assert(pair_texts(self.metadata_dedup@) =~= old_t.push((data@, name@)));
        assert(distinct_keys(pair_texts(self.metadata_dedup@))) by {
            let nt = pair_texts(self.metadata_dedup@);
            assert forall|a: int, b: int| 0 <= a < b < nt.len() implies nt[a].0 != nt[b].0 by {
                if b == old_t.len() {
                    assert(!key_is(data@)(old_t[a]));
                }
            }
        }
        (name, true)
    }

    /// The metadata file for a core's metadata tables `tables`, whose blocks come in the kinds and
    /// versions `versions`: the file already written with these tables, else a new numbered file,
    /// together with the module text to write into it.
    pub fn metadata_for(&mut self, tables: String, versions: &Vec<(String, String)>) -> (r: (String, Option<String>))
        requires
            old(self).wf(),
        ensures
            final(self).wf(),
            final(self).opts == old(self).opts,
            final(self).memory_option_features == old(self).memory_option_features,
            final(self).memory_split_prefixes == old(self).memory_split_prefixes,
            final(self).all_peripheral_versions == old(self).all_peripheral_versions,
            final(self).all_nv_versions == old(self).all_nv_versions,
            match crate::search::find_first(pair_texts(old(self).metadata_dedup@), key_is(tables@)) {
                Some(i) => r.1 is None && r.0@ == pair_texts(old(self).metadata_dedup@)[i].1
                    && final(self).metadata_dedup == old(self).metadata_dedup,
                None => r.0@ == metadata_file_name(old(self).metadata_dedup@.len())
                    && pair_texts(final(self).metadata_dedup@) == pair_texts(old(self).metadata_dedup@).push((tables@, r.0@))
                        && (r.1 matches Some(m) && m@ == spec_metadata_module(tables@, version_texts(versions@))),
            },
    {
        let module = metadata_module(tables.as_str(), versions);
        let (file, new) = self.metadata_file(tables);
        if new {
            (file, Some(module))
        } else {
            (file, None)
        }
    }

    /// The feature lines that the generated crate's manifest gets, for the chip-and-core targets
    /// `targets` and the memory features gathered.
    pub fn cargo_features(&self, targets: &Vec<String>) -> (r: String)
        ensures
            r@ == spec_cargo_features(
                texts(targets@),
                texts(self.memory_option_features@),
                texts(self.memory_split_prefixes@),
            ),
    {
        let mut out: Vec<char> = Vec::new();
        push_lines(&mut out, targets, "", " = []", true);
        let ghost a = out@;
        if self.memory_option_features.len() > 0 {
            out.push('\n');
            push_lines(&mut out, &self.memory_option_features, "memory-config-", " = []", false);
        }
        let ghost b = out@;
        if self.memory_split_prefixes.len() > 0 {
            out.push('\n');
            push_lines(&mut out, &self.memory_split_prefixes, "memory-split-", " = [\"memory-x\"]", false);
        }
        assert(out@ =~= spec_cargo_features(
            texts(targets@),
            texts(self.memory_option_features@),
            texts(self.memory_split_prefixes@),
        ));
        string_from_chars(&out)
    }
}

/// Adds every item to a strictly sorted set of strings.
pub fn insert_all_sorted(set: &mut Vec<String>, items: &Vec<String>)
    requires
        strictly_sorted(texts(old(set)@)),
    ensures
        strictly_sorted(texts(final(set)@)),
        forall|t: Seq<char>|
            #![trigger texts(final(set)@).contains(t)]
            #![trigger texts(items@).contains(t)]
            texts(final(set)@).contains(t) <==> (texts(old(set)@).contains(t) || texts(items@).contains(t)),
{
    let ghost s0 = texts(set@);
    let ghost all = texts(items@);
    let mut j: usize = 0;
    while j < items.len()
        invariant
            s0 == texts(old(set)@),
            all == texts(items@),
            j <= items@.len(),
            strictly_sorted(texts(set@)),
            forall|t: Seq<char>| texts(set@).contains(t) <==> (s0.contains(t) || all.take(j as int).contains(t)),
        decreases items@.len() - j,
    {
        let ghost before = texts(set@);
        assert(forall|t: Seq<char>| before.contains(t) <==> (s0.contains(t) || all.take(j as int).contains(t)));
        let ghost j0 = j;
        insert_sorted_unique(set, items[j].clone());
        j += 1;
        assert forall|t: Seq<char>| texts(set@).contains(t) <==> (s0.contains(t) || all.take(j as int).contains(t)) by {
            let tj = all.take(j as int);
            let tp = all.take(j0 as int);
            assert(tj =~= tp.push(all[j - 1]));
            if tj.contains(t) {
                let k = choose|k: int| 0 <= k < tj.len() && tj[k] == t;
                if k < j - 1 {
                    assert(tp[k] == t);
                }
            }
            if tp.contains(t) {
                let k = choose|k: int| 0 <= k < tp.len() && tp[k] == t;
                assert(tj[k] == t);
            }
            if t == all[j - 1] {
                assert(tj[j - 1] == t);
            }
        }
    }
    assert(all.take(j as int) =~= all);
    assert forall|t: Seq<char>| texts(set@).contains(t) <==> (s0.contains(t) || all.contains(t)) by {
        assert(texts(set@).contains(t) <==> (s0.contains(t) || all.take(j as int).contains(t)));
    }
}

/// The names of a sequence of regions.
pub open spec fn region_names(s: Seq<MemoryRegion>) -> Seq<Seq<char>> {
    s.map_values(|r: MemoryRegion| r.name@)
}

/// The names of a sequence of memory variants.
pub open spec fn option_names(s: Seq<MemoryOption>) -> Seq<Seq<char>> {
    s.map_values(|o: MemoryOption| o.name@)
}

/// Predicate: the pair's key is `k`.
pub open spec fn key_is(k: Seq<char>) -> spec_fn((Seq<char>, Seq<char>)) -> bool {
    |p: (Seq<char>, Seq<char>)| p.0 == k
}

/// A second request for the metadata file of equal tables gets the file of the first request
/// back, and nothing new is written: after the first request recorded `(tables, file)` in the
/// generator's file list (whose tables are distinct), looking the tables up finds that entry.
pub proof fn law_equal_tables_share_a_file(
    files: Seq<(Seq<char>, Seq<char>)>,
    tables: Seq<char>,
    file: Seq<char>,
)
    requires
        distinct_keys(files),
        crate::search::find_first(files, key_is(tables)) is None,
    ensures
        crate::search::find_first(files.push((tables, file)), key_is(tables)) == Some(files.len() as int),
        files.push((tables, file))[files.len() as int].1 == file,
{
    let after = files.push((tables, file));
    assert forall|j: int| 0 <= j < files.len() implies !key_is(tables)(#[trigger] after[j]) by {
        assert(after[j] == files[j]);
        if files[j].0 == tables {
            crate::search::lemma_find_first_some(files, key_is(tables), j);
        }
    }
    crate::search::lemma_find_first_is(after, key_is(tables), files.len() as int);
}

} // verus!
