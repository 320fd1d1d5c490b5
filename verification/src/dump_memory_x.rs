//! The decisions of the `memory.x` dump command: its arguments, the features it is asked to
//! render, the chips it selects and the text it writes per chip.
pub mod laws;

use vstd::prelude::*;

use crate::fmt::{push_str, string_from_chars};
use crate::mem_layout::str_eq;
use crate::order::{insert_sorted_unique, insert_text, strictly_sorted, texts};
use crate::fmt::{push_joined, spec_join};
use crate::generator::dump::{spec_split_prefixes, split_prefixes_from_names, str_texts, ChipDump, ChipOption};
use crate::memory_x_render::{
    is_flash, is_ram, regions_resolve_defined, render_memory_x, resolve_defined, resolve_regions,
    spec_render_memory_x, spec_resolve_regions, str_views, views, Region, RegionView,
};
use crate::order::{
    insertion_sort, lemma_insert_pos_is, lemma_insertion_sort_contains, lemma_insertion_sort_len,
    lemma_insertion_sort_push, text_lt,
};
use crate::search::{find_first, lemma_find_first_is, lemma_find_first_none};
use crate::text::{
    ascii_lower, ascii_uppercase, char_is_whitespace, char_to_ascii_lower, is_whitespace,
    spec_starts_with, spec_strip_prefix, starts_with, strip_prefix, to_ascii_uppercase,
};

verus! {

/// The command line: chip names or globs, and the features, when given.
pub struct Cli {
    pub chips: Vec<String>,
    pub features: Option<Vec<String>>,
}

/// A character that separates features: `,` or whitespace.
pub open spec fn is_feature_sep(c: char) -> bool {
    c == ',' || is_whitespace(c)
}

/// The pieces of `s` between separators, lower-cased and without empty ones, where `cur` is the
/// piece read so far.
pub open spec fn feature_pieces(s: Seq<char>, cur: Seq<char>) -> Seq<Seq<char>>
    decreases s.len(),
{
    if s.len() == 0 {
        if cur.len() > 0 { seq![cur] } else { Seq::empty() }
    } else if is_feature_sep(s[0]) {
        (if cur.len() > 0 { seq![cur] } else { Seq::empty() }) + feature_pieces(s.drop_first(), Seq::empty())
    } else {
        feature_pieces(s.drop_first(), cur.push(ascii_lower(s[0])))
    }
}

/// The features listed in `s`: separated by commas or whitespace, lower-cased, empty ones
/// dropped.
pub open spec fn spec_parse_feature_list(s: Seq<char>) -> Seq<Seq<char>> {
    feature_pieces(s, Seq::empty())
}

/// The features listed in `s`.
pub fn parse_feature_list(s: &str) -> (r: Vec<String>)
    ensures
        texts(r@) == spec_parse_feature_list(s@),
{
    let n = s.unicode_len();
    let mut out: Vec<String> = Vec::new();
    let mut cur: Vec<char> = Vec::new();
    let mut i: usize = 0;
    assert(s@.skip(0) =~= s@);
    while i < n
        invariant
            n == s@.len(),
            i <= n,
            texts(out@) + feature_pieces(s@.skip(i as int), cur@) == spec_parse_feature_list(s@),
        decreases n - i,
    {
        let c = s.get_char(i);
        let ghost rest = s@.skip(i as int);
        assert(rest[0] == c);
        assert(rest.drop_first() =~= s@.skip(i + 1));
        if c == ',' || char_is_whitespace(c) {
            let ghost piece = cur@;
            if cur.len() > 0 {
                let ghost prev = out@;
                out.push(string_from_chars(&cur));
                assert(texts(out@) =~= texts(prev).push(piece));
                assert(texts(out@) + feature_pieces(s@.skip(i + 1), Seq::empty()) =~= texts(prev) + (seq![piece]
                    + feature_pieces(s@.skip(i + 1), Seq::empty())));
            } else {
                assert(texts(out@) + feature_pieces(s@.skip(i + 1), Seq::empty()) =~= texts(out@) + (Seq::empty()
                    + feature_pieces(s@.skip(i + 1), Seq::empty())));
            }
            cur = Vec::new();
        } else {
            cur.push(char_to_ascii_lower(c));
        }
        i += 1;
    }
    assert(s@.skip(n as int) =~= Seq::<char>::empty());
    if cur.len() > 0 {
        let ghost prev = out@;
        let ghost piece = cur@;
        out.push(string_from_chars(&cur));
        assert(texts(out@) =~= texts(prev).push(piece));
        assert(texts(prev) + seq![piece] =~= texts(out@));
    } else {
        assert(texts(out@) + Seq::<Seq<char>>::empty() =~= texts(out@));
    }
    out
}

/// The error text of a flag without its value.
pub open spec fn msg_needs_value(flag: Seq<char>) -> Seq<char> {
    flag + " requires a value"@
}

/// The error text of an unknown flag.
pub open spec fn msg_unknown_flag(flag: Seq<char>) -> Seq<char> {
    "Unknown flag: "@ + flag + " (recognized: --features/-f)"@
}

/// The arguments from position `i` on: the chips in order and the features of the last
/// `--features` (or `-f`, or `--features=...`) among them, or the error of the first argument
/// that cannot be read.
pub open spec fn cli_from(args: Seq<Seq<char>>, i: int) -> Result<(Seq<Seq<char>>, Option<Seq<Seq<char>>>), Seq<char>>
    decreases args.len() - i,
{
    if i < 0 || i >= args.len() {
        Ok((Seq::empty(), None))
    } else {
        let a = args[i];
        if a == "--features"@ || a == "-f"@ {
            if i + 1 >= args.len() {
                Err(msg_needs_value(a))
            } else {
                match cli_from(args, i + 2) {
                    Err(e) => Err(e),
                    Ok(rest) => Ok((rest.0, Some(match rest.1 {
                        Some(f) => f,
                        None => spec_parse_feature_list(args[i + 1]),
                    }))),
                }
            }
        } else if crate::text::spec_starts_with(a, "--features="@) {
            match cli_from(args, i + 1) {
                Err(e) => Err(e),
                Ok(rest) => Ok((rest.0, Some(match rest.1 {
                    Some(f) => f,
                    None => spec_parse_feature_list(a.skip("--features="@.len() as int)),
                }))),
            }
        } else if a.len() > 0 && a[0] == '-' {
            Err(msg_unknown_flag(a))
        } else {
            match cli_from(args, i + 1) {
                Err(e) => Err(e),
                Ok(rest) => Ok((seq![a] + rest.0, rest.1)),
            }
        }
    }
}

/// What the command line means: everything after the program name.
pub open spec fn spec_parse_cli(args: Seq<Seq<char>>) -> Result<(Seq<Seq<char>>, Option<Seq<Seq<char>>>), Seq<char>> {
    cli_from(args, 1)
}

fn cli_from_exec(args: &[String], i: usize) -> (r: Result<(Vec<String>, Option<Vec<String>>), String>)
    requires
        i >= 1,
    ensures
        match cli_from(texts(args@), i as int) {
            Ok(v) => r matches Ok(w) && texts(w.0@) == v.0 && match (w.1, v.1) {
                (Some(x), Some(y)) => texts(x@) == y,
                (None, None) => true,
                _ => false,
            },
            Err(e) => r matches Err(t) && t@ == e,
        },
    decreases args@.len() - i,
{
    let ghost a_s = texts(args@);
    if i >= args.len() {
        return Ok((Vec::new(), None));
    }
    let a = args[i].as_str();
    assert(a@ == a_s[i as int]);
    if str_eq(a, "--features") || str_eq(a, "-f") {
        if i + 1 >= args.len() {
            let mut out: Vec<char> = Vec::new();
            push_str(&mut out, a);
            push_str(&mut out, " requires a value");
            return Err(string_from_chars(&out));
        }
        let rest = cli_from_exec(args, i + 2);
        match rest {
            Err(e) => Err(e),
            Ok((chips, feats)) => {
                let f = match feats {
                    Some(f) => f,
                    None => parse_feature_list(args[i + 1].as_str()),
                };
                Ok((chips, Some(f)))
            },
        }
    } else if crate::text::starts_with(a, "--features=") {
        let rest = cli_from_exec(args, i + 1);
        match rest {
            Err(e) => Err(e),
            Ok((chips, feats)) => {
                let f = match feats {
                    Some(f) => f,
                    None => {
                        let k = "--features=".unicode_len();
                        let tail = a.substring_char(k, a.unicode_len());
                        assert(tail@ =~= a@.skip("--features="@.len() as int));
                        parse_feature_list(tail)
                    },
                };
                Ok((chips, Some(f)))
            },
        }
    } else if a.unicode_len() > 0 && a.get_char(0) == '-' {
        let mut out: Vec<char> = Vec::new();
        push_str(&mut out, "Unknown flag: ");
        push_str(&mut out, a);
        push_str(&mut out, " (recognized: --features/-f)");
        assert(out@ =~= msg_unknown_flag(a@));
        Err(string_from_chars(&out))
    } else {
        let rest = cli_from_exec(args, i + 1);
        match rest {
            Err(e) => Err(e),
            Ok((mut chips, feats)) => {
                let ghost prev = texts(chips@);
                chips.insert(0, args[i].clone());
                assert(texts(chips@) =~= seq![a@] + prev);
                Ok((chips, feats))
            },
        }
    }
}

/// The error with which the command stops on these arguments, if any.
pub fn cli_error(args: &[String]) -> (r: Option<String>)
    ensures
        match spec_parse_cli(texts(args@)) {
            Ok(_) => r is None,
            Err(e) => r matches Some(t) && t@ == e,
        },
{
    match cli_from_exec(args, 1) {
        Ok(_) => None,
        Err(e) => Some(e),
    }
}

/// Reads the command line (`args[0]` is the program): chip names and globs, and the feature list
/// of the last `--features`/`-f` (value in the next argument) or `--features=` argument.
pub fn parse_cli(args: &[String]) -> (r: Cli)
    requires
        spec_parse_cli(texts(args@)) is Ok,
    ensures
        texts(r.chips@) == spec_parse_cli(texts(args@))->Ok_0.0,
        match (r.features, spec_parse_cli(texts(args@))->Ok_0.1) {
            (Some(x), Some(y)) => texts(x@) == y,
            (None, None) => true,
            _ => false,
        },
{
    match cli_from_exec(args, 1) {
        Ok((chips, features)) => Cli { chips, features },
        Err(_) => Cli { chips: Vec::new(), features: None },
    }
}


// ---------------------------------------------------------------------------------------------
// Features

/// The text of an optional string.
pub open spec fn opt_text(o: Option<String>) -> Option<Seq<char>> {
    match o {
        Some(x) => Some(x@),
        None => None,
    }
}

/// The error text of a second memory configuration.
pub open spec fn msg_multiple_configs(prev: Seq<char>, name: Seq<char>) -> Seq<char> {
    "Multiple memory-config-* features given: memory-config-"@ + prev + ", memory-config-"@ + name
}

/// The error text of a feature that is not a memory feature.
pub open spec fn msg_unknown_feature(f: Seq<char>) -> Seq<char> {
    "Unknown feature: "@ + f
}

/// The memory configuration and the split bank prefixes that the features from position `i` on
/// select, `option` being the configuration selected before; `memory-x` is ignored; a second
/// configuration or another feature is an error.
pub open spec fn features_from(fs: Seq<Seq<char>>, i: int, option: Option<Seq<char>>) -> Result<(Option<Seq<char>>, Seq<Seq<char>>), Seq<char>>
    decreases fs.len() - i,
{
    if i < 0 || i >= fs.len() {
        Ok((option, Seq::empty()))
    } else {
        let f = fs[i];
        if f == "memory-x"@ {
            features_from(fs, i + 1, option)
        } else {
            match spec_strip_prefix(f, "memory-config-"@) {
                Some(name) => match option {
                    Some(prev) => Err(msg_multiple_configs(prev, name)),
                    None => features_from(fs, i + 1, Some(name)),
                },
                None => match spec_strip_prefix(f, "memory-split-"@) {
                    Some(p) => match features_from(fs, i + 1, option) {
                        Err(e) => Err(e),
                        Ok(r) => Ok((r.0, insert_text(r.1, p))),
                    },
                    None => Err(msg_unknown_feature(f)),
                },
            }
        }
    }
}

fn features_from_exec(fs: &[String], i: usize, option: Option<String>) -> (r: Result<(Option<String>, Vec<String>), String>)
    ensures
        match features_from(texts(fs@), i as int, opt_text(option)) {
            Ok(v) => r matches Ok(w) && opt_text(w.0) == v.0 && strictly_sorted(texts(w.1@))
                && texts(w.1@) == v.1,
            Err(e) => r matches Err(t) && t@ == e,
        },
    decreases fs@.len() - i,
{
    let ghost ft = texts(fs@);
    if i >= fs.len() {
        return Ok((option, Vec::new()));
    }
    let f = fs[i].as_str();
    assert(f@ == ft[i as int]);
    if str_eq(f, "memory-x") {
        return features_from_exec(fs, i + 1, option);
    }
    match strip_prefix(f, "memory-config-") {
        Some(name) => match option {
            Some(prev) => {
                let mut out: Vec<char> = Vec::new();
                push_str(&mut out, "Multiple memory-config-* features given: memory-config-");
                push_str(&mut out, prev.as_str());
                push_str(&mut out, ", memory-config-");
                push_str(&mut out, name);
                assert(out@ =~= msg_multiple_configs(prev@, name@));
                Err(string_from_chars(&out))
            },
            None => features_from_exec(fs, i + 1, Some(String::from_str(name))),
        },
        None => match strip_prefix(f, "memory-split-") {
            Some(p) => match features_from_exec(fs, i + 1, option) {
                Err(e) => Err(e),
                Ok((o, mut splits)) => {
                    insert_sorted_unique(&mut splits, String::from_str(p));
                    Ok((o, splits))
                },
            },
            None => {
                let mut out: Vec<char> = Vec::new();
                push_str(&mut out, "Unknown feature: ");
                push_str(&mut out, f);
                assert(out@ =~= msg_unknown_feature(f@));
                Err(string_from_chars(&out))
            },
        },
    }
}

/// What the features select: `None` or the memory configuration, and the split bank prefixes.
pub open spec fn spec_resolve_features(fs: Seq<Seq<char>>) -> Result<(Option<Seq<char>>, Seq<Seq<char>>), Seq<char>> {
    features_from(fs, 0, None)
}

/// The error with which the command stops on these features, if any.
pub fn features_error(features: &[String]) -> (r: Option<String>)
    ensures
        match spec_resolve_features(texts(features@)) {
            Ok(_) => r is None,
            Err(e) => r matches Some(t) && t@ == e,
        },
{
    match features_from_exec(features, 0, None) {
        Ok(_) => None,
        Err(e) => Some(e),
    }
}

/// The memory configuration the features select, if any, and the bank prefixes they keep split
/// (each once, in order).
pub fn resolve_features(features: &[String]) -> (r: (Option<String>, Vec<String>))
    requires
        spec_resolve_features(texts(features@)) is Ok,
    ensures
        opt_text(r.0) == spec_resolve_features(texts(features@))->Ok_0.0,
        strictly_sorted(texts(r.1@)),
        texts(r.1@) == spec_resolve_features(texts(features@))->Ok_0.1,
{
    match features_from_exec(features, 0, None) {
        Ok(v) => v,
        Err(_) => (None, Vec::new()),
    }
}

// ---------------------------------------------------------------------------------------------
// Chips

/// The error text of a data directory without chips.
pub open spec fn msg_no_chips_found() -> Seq<char> {
    "No chips found under build/data/chips"@
}

/// The error text of a glob with a `*` before its end.
pub open spec fn msg_inner_star(arg: Seq<char>) -> Seq<char> {
    "Only trailing `*` is supported in chip globs: "@ + arg
}

/// The error text of an argument that names no chip.
pub open spec fn msg_unknown_chip(arg: Seq<char>) -> Seq<char> {
    "Unknown chip: "@ + arg
}

/// The error text of globs that match no chip.
pub open spec fn msg_no_match() -> Seq<char> {
    "No chips matched"@
}

/// Predicate: the chip's upper-cased name is `u`.
pub open spec fn upper_named(u: Seq<char>) -> spec_fn(Seq<char>) -> bool {
    |c: Seq<char>| ascii_uppercase(c) == u
}

/// The chips whose upper-cased names begin with `prefix`.
pub open spec fn glob_matches(all: Seq<Seq<char>>, prefix: Seq<char>) -> Set<Seq<char>> {
    Set::new(|c: Seq<char>| exists|k: int| 0 <= k < all.len() && all[k] == c && spec_starts_with(ascii_uppercase(all[k]), prefix))
}

/// The chips that the arguments from position `i` on select, ignoring case: a chip name selects
/// the first chip of that name; an argument ending in `*` selects every chip whose name begins
/// with the rest; anything else is an error.
pub open spec fn select_from(args: Seq<Seq<char>>, i: int, all: Seq<Seq<char>>) -> Result<Set<Seq<char>>, Seq<char>>
    decreases args.len() - i,
{
    if i < 0 || i >= args.len() {
        Ok(Set::empty())
    } else {
        let u = ascii_uppercase(args[i]);
        match find_first(all, upper_named(u)) {
            Some(k) => match select_from(args, i + 1, all) {
                Err(e) => Err(e),
                Ok(s) => Ok(s.insert(all[k])),
            },
            None => if u.len() > 0 && u.last() == '*' {
                if u.drop_last().contains('*') {
                    Err(msg_inner_star(args[i]))
                } else {
                    match select_from(args, i + 1, all) {
                        Err(e) => Err(e),
                        Ok(s) => Ok(s.union(glob_matches(all, u.drop_last()))),
                    }
                }
            } else {
                Err(msg_unknown_chip(args[i]))
            },
        }
    }
}

fn first_upper_match(upper: &Vec<String>, u: &str, Ghost(all): Ghost<Seq<Seq<char>>>) -> (r: Option<usize>)
    requires
        upper@.len() == all.len(),
        forall|k: int| 0 <= k < all.len() ==> #[trigger] upper@[k]@ == ascii_uppercase(all[k]),
    ensures
        match r {
            Some(k) => k < all.len() && find_first(all, upper_named(u@)) == Some(k as int),
            None => find_first(all, upper_named(u@)) is None,
        },
{
    let mut k: usize = 0;
    while k < upper.len()
        invariant
            upper@.len() == all.len(),
            forall|j: int| 0 <= j < all.len() ==> #[trigger] upper@[j]@ == ascii_uppercase(all[j]),
            k <= all.len(),
            forall|j: int| 0 <= j < k ==> !upper_named(u@)(#[trigger] all[j]),
        decreases all.len() - k,
    {
        if str_eq(upper[k].as_str(), u) {
            proof {
                lemma_find_first_is(all, upper_named(u@), k as int);
            }
            return Some(k);
        }
        k += 1;
    }
    proof {
        lemma_find_first_none(all, upper_named(u@));
    }
    None
}

fn contains_char(s: &str, c: char) -> (r: bool)
    ensures
        r == s@.contains(c),
{
    let n = s.unicode_len();
    let mut i: usize = 0;
    while i < n
        invariant
            n == s@.len(),
            i <= n,
            forall|j: int| 0 <= j < i ==> s@[j] != c,
        decreases n - i,
    {
        if s.get_char(i) == c {
            assert(s@[i as int] == c);
            return true;
        }
        i += 1;
    }
    false
}

fn select_from_exec(args: &[String], i: usize, all: &[String], upper: &Vec<String>) -> (r: Result<Vec<String>, String>)
    requires
        upper@.len() == all@.len(),
        forall|k: int| 0 <= k < all@.len() ==> #[trigger] upper@[k]@ == ascii_uppercase(all@[k]@),
    ensures
        match select_from(texts(args@), i as int, texts(all@)) {
            Ok(s) => r matches Ok(w) && strictly_sorted(texts(w@))
                && forall|t: Seq<char>| #[trigger] texts(w@).contains(t) <==> s.contains(t),
            Err(e) => r matches Err(t) && t@ == e,
        },
    decreases args@.len() - i,
{
    let ghost at = texts(args@);
    let ghost al = texts(all@);
    if i >= args.len() {
        return Ok(Vec::new());
    }
    let arg = args[i].as_str();
    assert(arg@ == at[i as int]);
    let u = to_ascii_uppercase(arg);
    match first_upper_match(upper, u.as_str(), Ghost(al)) {
        Some(k) => match select_from_exec(args, i + 1, all, upper) {
            Err(e) => Err(e),
            Ok(mut picked) => {
                let ghost before = texts(picked@);
                let ghost rest = select_from(at, i + 1, al);
                insert_sorted_unique(&mut picked, all[k].clone());
                assert forall|t: Seq<char>| #[trigger] texts(picked@).contains(t) <==> rest->Ok_0.insert(al[k as int]).contains(t) by {
                    assert(before.contains(t) <==> rest->Ok_0.contains(t));
                }
                Ok(picked)
            },
        },
        None => {
            let n = u.unicode_len();
            if n > 0 && u.as_str().get_char(n - 1) == '*' {
                let prefix = u.as_str().substring_char(0, n - 1);
                assert(prefix@ =~= u@.drop_last());
                if contains_char(prefix, '*') {
                    let mut out: Vec<char> = Vec::new();
                    push_str(&mut out, "Only trailing `*` is supported in chip globs: ");
                    push_str(&mut out, arg);
                    assert(out@ =~= msg_inner_star(arg@));
                    return Err(string_from_chars(&out));
                }
                match select_from_exec(args, i + 1, all, upper) {
                    Err(e) => Err(e),
                    Ok(mut picked) => {
                        let ghost rest = select_from(at, i + 1, al)->Ok_0;
                        let mut k: usize = 0;
                        while k < all.len()
                            invariant
                                upper@.len() == all@.len(),
                                forall|j: int| 0 <= j < all@.len() ==> #[trigger] upper@[j]@ == ascii_uppercase(all@[j]@),
                                al == texts(all@),
                                k <= all@.len(),
                                strictly_sorted(texts(picked@)),
                                forall|t: Seq<char>| #[trigger] texts(picked@).contains(t) <==> (rest.contains(t)
                                    || exists|j: int| 0 <= j < k && al[j] == t && spec_starts_with(ascii_uppercase(al[j]), prefix@)),
                            decreases all@.len() - k,
                        {
                            let ghost before = texts(picked@);
                            if starts_with(upper[k].as_str(), prefix) {
                                insert_sorted_unique(&mut picked, all[k].clone());
                            }
                            k += 1;
                            assert forall|t: Seq<char>| #[trigger] texts(picked@).contains(t) <==> (rest.contains(t)
                                || exists|j: int| 0 <= j < k && al[j] == t && spec_starts_with(ascii_uppercase(al[j]), prefix@)) by {
                                assert(before.contains(t) <==> (rest.contains(t)
                                    || exists|j: int| 0 <= j < k - 1 && al[j] == t && spec_starts_with(ascii_uppercase(al[j]), prefix@)));
                                if exists|j: int| 0 <= j < k && al[j] == t && spec_starts_with(ascii_uppercase(al[j]), prefix@) {
                                    let j = choose|j: int| 0 <= j < k && al[j] == t && spec_starts_with(ascii_uppercase(al[j]), prefix@);
                                    if j < k - 1 {
                                        assert(exists|j2: int| 0 <= j2 < k - 1 && al[j2] == t && spec_starts_with(ascii_uppercase(al[j2]), prefix@));
                                    }
                                }
                                if t == al[k - 1] && spec_starts_with(ascii_uppercase(al[k - 1]), prefix@) {
                                    assert(exists|j: int| 0 <= j < k && al[j] == t && spec_starts_with(ascii_uppercase(al[j]), prefix@));
                                }
                            }
                        }
                        assert forall|t: Seq<char>| #[trigger] texts(picked@).contains(t) <==> rest.union(glob_matches(al, prefix@)).contains(t) by {
                            assert(glob_matches(al, prefix@).contains(t) <==> exists|j: int| 0 <= j < al.len() && al[j] == t && spec_starts_with(ascii_uppercase(al[j]), prefix@));
                        }
                        Ok(picked)
                    },
                }
            } else {
                let mut out: Vec<char> = Vec::new();
                push_str(&mut out, "Unknown chip: ");
                push_str(&mut out, arg);
                assert(out@ =~= msg_unknown_chip(arg@));
                Err(string_from_chars(&out))
            }
        },
    }
}

/// The chips that the command works on, or the error it stops with: with no arguments every chip
/// (in the given order); else the chips the arguments select, each once, in order.
pub open spec fn select_outcome(args: Seq<Seq<char>>, all: Seq<Seq<char>>) -> Result<Set<Seq<char>>, Seq<char>> {
    if args.len() == 0 {
        if all.len() == 0 {
            Err(msg_no_chips_found())
        } else {
            Ok(all.to_set())
        }
    } else {
        match select_from(args, 0, all) {
            Err(e) => Err(e),
            Ok(s) => if s == Set::<Seq<char>>::empty() {
                Err(msg_no_match())
            } else {
                Ok(s)
            },
        }
    }
}

fn select_chips_checked(args: &[String], all_chips: &[String]) -> (r: Result<Vec<String>, String>)
    ensures
        match select_outcome(texts(args@), texts(all_chips@)) {
            Ok(s) => r matches Ok(w) && (forall|t: Seq<char>| #[trigger] texts(w@).contains(t) <==> s.contains(t))
                && (if args@.len() == 0 { texts(w@) == texts(all_chips@) } else { strictly_sorted(texts(w@)) }),
            Err(e) => r matches Err(t) && t@ == e,
        },
{
    if args.len() == 0 {
        if all_chips.len() == 0 {
            return Err(String::from_str("No chips found under build/data/chips"));
        }
        let mut out: Vec<String> = Vec::new();
        let mut i: usize = 0;
        while i < all_chips.len()
            invariant
                i <= all_chips@.len(),
                texts(out@) == texts(all_chips@).take(i as int),
            decreases all_chips@.len() - i,
        {
            let ghost prev = texts(out@);
            out.push(all_chips[i].clone());
            i += 1;
            assert(texts(out@) =~= prev.push(all_chips@[i - 1]@));
            assert(texts(all_chips@).take(i as int) =~= texts(all_chips@).take(i - 1).push(all_chips@[i - 1]@));
        }
        assert(texts(all_chips@).take(i as int) =~= texts(all_chips@));
        assert forall|t: Seq<char>| #[trigger] texts(out@).contains(t) <==> texts(all_chips@).to_set().contains(t) by {}
        return Ok(out);
    }
    let mut upper: Vec<String> = Vec::new();
    let mut i: usize = 0;
    while i < all_chips.len()
        invariant
            i <= all_chips@.len(),
            upper@.len() == i,
            forall|k: int| 0 <= k < i ==> #[trigger] upper@[k]@ == ascii_uppercase(all_chips@[k]@),
        decreases all_chips@.len() - i,
    {
        upper.push(to_ascii_uppercase(all_chips[i].as_str()));
        i += 1;
    }
    match select_from_exec(args, 0, all_chips, &upper) {
        Err(e) => Err(e),
        Ok(picked) => {
            let ghost s = select_from(texts(args@), 0, texts(all_chips@))->Ok_0;
            if picked.len() == 0 {
                assert(s =~= Set::<Seq<char>>::empty()) by {
                    assert forall|t: Seq<char>| !s.contains(t) by {
                        assert(!texts(picked@).contains(t));
                    }
                }
                return Err(String::from_str("No chips matched"));
            }
            assert(s != Set::<Seq<char>>::empty()) by {
                assert(texts(picked@)[0] == picked@[0]@);
                assert(texts(picked@).contains(picked@[0]@));
                assert(s.contains(picked@[0]@));
            }
            Ok(picked)
        },
    }
}

/// The error with which the command stops on this chip selection, if any.
pub fn select_chips_error(args: &[String], all_chips: &[String]) -> (r: Option<String>)
    ensures
        match select_outcome(texts(args@), texts(all_chips@)) {
            Ok(_) => r is None,
            Err(e) => r matches Some(t) && t@ == e,
        },
{
    match select_chips_checked(args, all_chips) {
        Ok(_) => None,
        Err(e) => Some(e),
    }
}

/// The chips the command works on: every chip when no argument is given, else the chips the
/// arguments select (names and trailing-`*` globs, ignoring case), each once, in order.
pub fn select_chips(args: &[String], all_chips: &[String]) -> (r: Vec<String>)
    requires
        select_outcome(texts(args@), texts(all_chips@)) is Ok,
    ensures
        forall|t: Seq<char>| #[trigger] texts(r@).contains(t) <==> select_outcome(texts(args@), texts(all_chips@))->Ok_0.contains(t),
        args@.len() == 0 ==> texts(r@) == texts(all_chips@),
        args@.len() > 0 ==> strictly_sorted(texts(r@)),
{
    match select_chips_checked(args, all_chips) {
        Ok(v) => v,
        Err(_) => Vec::new(),
    }
}

// ---------------------------------------------------------------------------------------------
// Labels

/// The features that select a variant: its configuration (unless it is the default) and its
/// split bank prefixes.
pub open spec fn label_parts(option: Seq<char>, default: Seq<char>, splits: Seq<Seq<char>>) -> Seq<Seq<char>> {
    (if option != default { seq!["memory-config-"@ + option] } else { Seq::empty() })
        + splits.map_values(|p: Seq<char>| "memory-split-"@ + p)
}

/// The label of a variant: its features joined by `, `, or a note that it is the default.
pub open spec fn spec_feature_label(option: Seq<char>, default: Seq<char>, splits: Seq<Seq<char>>) -> Seq<char> {
    let parts = label_parts(option, default, splits);
    if parts.len() == 0 {
        "(no memory-config-* / memory-split-* features \u{2014} default)"@
    } else {
        spec_join(parts, ", "@)
    }
}

/// The label of the variant `option` with the split bank prefixes `splits`.
pub fn feature_label(option: &str, default: &str, splits: &Vec<String>) -> (r: String)
    ensures
        r@ == spec_feature_label(option@, default@, texts(splits@)),
{
    let ghost target = label_parts(option@, default@, texts(splits@));
    let mut parts: Vec<String> = Vec::new();
    if !str_eq(option, default) {
        let mut out: Vec<char> = Vec::new();
        push_str(&mut out, "memory-config-");
        push_str(&mut out, option);
        parts.push(string_from_chars(&out));
    }
    let ghost head = texts(parts@);
    assert(head =~= (if option@ != default@ { seq!["memory-config-"@ + option@] } else { Seq::<Seq<char>>::empty() }));
    let mut i: usize = 0;
    while i < splits.len()
        invariant
            i <= splits@.len(),
            texts(parts@) == head + texts(splits@).take(i as int).map_values(|p: Seq<char>| "memory-split-"@ + p),
        decreases splits@.len() - i,
    {
        let ghost prev = texts(parts@);
        let mut out: Vec<char> = Vec::new();
        push_str(&mut out, "memory-split-");
        push_str(&mut out, splits[i].as_str());
        parts.push(string_from_chars(&out));
        i += 1;
        assert(texts(splits@).take(i as int) =~= texts(splits@).take(i - 1).push(splits@[i - 1]@));
        assert(texts(parts@) =~= prev.push("memory-split-"@ + splits@[i - 1]@));
        assert(texts(parts@) =~= head + texts(splits@).take(i as int).map_values(|p: Seq<char>| "memory-split-"@ + p));
    }
    assert(texts(splits@).take(i as int) =~= texts(splits@));
    assert(texts(parts@) == target);
    if parts.len() == 0 {
        String::from_str("(no memory-config-* / memory-split-* features \u{2014} default)")
    } else {
        let mut out: Vec<char> = Vec::new();
        push_joined(&mut out, &parts, ", ");
        assert(out@ =~= spec_join(texts(parts@), ", "@));
        string_from_chars(&out)
    }
}


// ---------------------------------------------------------------------------------------------
// Rendering

/// A rule of 72 `=`.
pub open spec fn rule() -> Seq<char> {
    Seq::new(72, |i: int| '=')
}

/// The comment block that introduces a variant.
pub open spec fn variant_header(label: Seq<char>) -> Seq<char> {
    "# "@ + rule() + seq!['\n'] + "# features: "@ + label + seq!['\n'] + "# "@ + rule() + seq!['\n', '\n']
}

/// The regions of a variant resolve within `u32` and keep a flash and a RAM region.
pub open spec fn variant_renders(regions: Seq<RegionView>, splits: Seq<Seq<char>>) -> bool {
    &&& resolve_defined(regions, splits)
    &&& exists|i: int| 0 <= i < spec_resolve_regions(regions, splits).len() && is_flash(#[trigger] spec_resolve_regions(regions, splits)[i])
    &&& exists|i: int| 0 <= i < spec_resolve_regions(regions, splits).len() && is_ram(#[trigger] spec_resolve_regions(regions, splits)[i])
}

/// The error with which the command stops on a variant, if any: an address or size beyond
/// 32 bits while merging banks, or no flash or no RAM region after resolution.
pub open spec fn spec_variant_error(regions: Seq<RegionView>, splits: Seq<Seq<char>>) -> Option<Seq<char>> {
    if !resolve_defined(regions, splits) {
        Some("attempt to add with overflow"@)
    } else if !exists|i: int| 0 <= i < spec_resolve_regions(regions, splits).len() && is_flash(#[trigger] spec_resolve_regions(regions, splits)[i]) {
        Some("no flash region after resolution"@)
    } else if !exists|i: int| 0 <= i < spec_resolve_regions(regions, splits).len() && is_ram(#[trigger] spec_resolve_regions(regions, splits)[i]) {
        Some("no ram region after resolution"@)
    } else {
        None
    }
}

/// The text of one variant: its header and the linker script of its resolved regions.
pub open spec fn spec_render_variant(regions: Seq<RegionView>, splits: Seq<Seq<char>>, label: Seq<char>) -> Seq<char> {
    variant_header(label) + spec_render_memory_x(spec_resolve_regions(regions, splits))
}

fn push_rule(out: &mut Vec<char>)
    ensures
        final(out)@ == old(out)@ + rule(),
{
    let mut i: usize = 0;
    while i < 72
        invariant
            i <= 72,
            out@ == old(out)@ + Seq::new(i as nat, |j: int| '='),
        decreases 72 - i,
    {
        out.push('=');
        i += 1;
        assert(out@ =~= old(out)@ + Seq::new(i as nat, |j: int| '='));
    }
}

fn has_kind(v: &Vec<Region>, kind: &str) -> (r: bool)
    ensures
        r == exists|i: int| 0 <= i < v@.len() && (#[trigger] views(v@)[i]).kind == kind@,
{
    let mut i: usize = 0;
    while i < v.len()
        invariant
            i <= v@.len(),
            forall|j: int| 0 <= j < i ==> (#[trigger] views(v@)[j]).kind != kind@,
        decreases v@.len() - i,
    {
        if str_eq(v[i].kind.as_str(), kind) {
            assert(views(v@)[i as int].kind == kind@);
            return true;
        }
        i += 1;
    }
    false
}

/// The error with which the command stops on a variant, if any: an address or size beyond
/// 32 bits while merging banks, or no flash or no RAM region after resolution.
pub fn variant_error(regions: &[Region], splits: &Vec<String>) -> (r: Option<String>)
    ensures
        r is None <==> variant_renders(views(regions@), texts(splits@)),
        match spec_variant_error(views(regions@), texts(splits@)) {
            Some(e) => r matches Some(t) && t@ == e,
            None => r is None,
        },
{
    assert(str_views(splits@) =~= texts(splits@));
    if !regions_resolve_defined(regions, splits) {
        return Some(String::from_str("attempt to add with overflow"));
    }
    let resolved = resolve_regions(regions, splits);
    proof {
        reveal_strlit("flash");
        reveal_strlit("ram");
    }
    if !has_kind(&resolved, "flash") {
        return Some(String::from_str("no flash region after resolution"));
    }
    if !has_kind(&resolved, "ram") {
        return Some(String::from_str("no ram region after resolution"));
    }
    None
}

/// The text of one variant: a header with its label, then the `memory.x` of its regions
/// resolved with the split prefixes.
pub fn render_variant(regions: &[Region], splits: &Vec<String>, label: &str) -> (r: String)
    requires
        variant_renders(views(regions@), texts(splits@)),
    ensures
        r@ == spec_render_variant(views(regions@), texts(splits@), label@),
{
    assert(str_views(splits@) =~= texts(splits@));
    let resolved = resolve_regions(regions, splits);
    let memory_x = render_memory_x(resolved.as_slice());
    let mut out: Vec<char> = Vec::new();
    push_str(&mut out, "# ");
    push_rule(&mut out);
    out.push('\n');
    push_str(&mut out, "# features: ");
    push_str(&mut out, label);
    out.push('\n');
    push_str(&mut out, "# ");
    push_rule(&mut out);
    out.push('\n');
    out.push('\n');
    push_str(&mut out, memory_x.as_str());
    assert(out@ =~= spec_render_variant(views(regions@), texts(splits@), label@));
    string_from_chars(&out)
}

/// Predicate: the variant carries exactly this name.
pub open spec fn chip_option_named(name: Seq<char>) -> spec_fn(ChipOption) -> bool {
    |o: ChipOption| o.name@ == name
}

/// The error text of a variant that the chip does not have.
pub open spec fn msg_missing_option(chip: Seq<char>, name: Seq<char>, available: Seq<Seq<char>>) -> Seq<char> {
    "Chip "@ + chip + " has no memory-config-"@ + name + " (available: "@ + spec_join(available, ", "@) + ")"@
}

/// The names of the variants of a chip.
pub open spec fn chip_option_names(d: ChipDump) -> Seq<Seq<char>> {
    d.options@.map_values(|o: ChipOption| o.name@)
}

fn find_option_index(dump: &ChipDump, name: &str) -> (r: Option<usize>)
    ensures
        match r {
            Some(i) => i < dump.options@.len() && find_first(dump.options@, chip_option_named(name@)) == Some(i as int),
            None => find_first(dump.options@, chip_option_named(name@)) is None,
        },
{
    let mut i: usize = 0;
    while i < dump.options.len()
        invariant
            i <= dump.options@.len(),
            forall|j: int| 0 <= j < i ==> !chip_option_named(name@)(#[trigger] dump.options@[j]),
        decreases dump.options@.len() - i,
    {
        if str_eq(dump.options[i].name.as_str(), name) {
            proof {
                lemma_find_first_is(dump.options@, chip_option_named(name@), i as int);
            }
            return Some(i);
        }
        i += 1;
    }
    proof {
        lemma_find_first_none(dump.options@, chip_option_named(name@));
    }
    None
}

/// The error with which the command stops when asked for the variant `name`, if any.
pub fn find_option_error(dump: &ChipDump, name: &str) -> (r: Option<String>)
    ensures
        match find_first(dump.options@, chip_option_named(name@)) {
            Some(_) => r is None,
            None => r matches Some(t) && t@ == msg_missing_option(dump.name@, name@, chip_option_names(*dump)),
        },
{
    if find_option_index(dump, name).is_some() {
        return None;
    }
    let mut names: Vec<String> = Vec::new();
    let mut i: usize = 0;
    while i < dump.options.len()
        invariant
            i <= dump.options@.len(),
            texts(names@) == chip_option_names(*dump).take(i as int),
        decreases dump.options@.len() - i,
    {
        let ghost prev = texts(names@);
        names.push(dump.options[i].name.clone());
        i += 1;
        assert(texts(names@) =~= prev.push(dump.options@[i - 1].name@));
        assert(chip_option_names(*dump).take(i as int) =~= chip_option_names(*dump).take(i - 1).push(dump.options@[i - 1].name@));
    }
    assert(chip_option_names(*dump).take(i as int) =~= chip_option_names(*dump));
    let mut out: Vec<char> = Vec::new();
    push_str(&mut out, "Chip ");
    push_str(&mut out, dump.name.as_str());
    push_str(&mut out, " has no memory-config-");
    push_str(&mut out, name);
    push_str(&mut out, " (available: ");
    push_joined(&mut out, &names, ", ");
    push_str(&mut out, ")");
    assert(out@ =~= msg_missing_option(dump.name@, name@, chip_option_names(*dump)));
    Some(string_from_chars(&out))
}

/// The variant `name` of a chip: the first of that name.
pub fn find_option<'a>(dump: &'a ChipDump, name: &str) -> (r: &'a ChipOption)
    requires
        find_first(dump.options@, chip_option_named(name@)) is Some,
    ensures
        *r == dump.options@[find_first(dump.options@, chip_option_named(name@))->0],
{
    match find_option_index(dump, name) {
        Some(i) => &dump.options[i],
        None => &dump.options[0],
    }
}

/// The variant that the features select: the configuration they name, else the default.
pub open spec fn selected_option(d: ChipDump, features: Seq<Seq<char>>) -> Seq<char> {
    match spec_resolve_features(features)->Ok_0.0 {
        Some(o) => o,
        None => d.default_option@,
    }
}

/// The command's output for a chip when features are given: the variant they select, with the
/// bank prefixes they keep split, or the error it stops with.
pub open spec fn spec_render_chip_features(d: ChipDump, features: Seq<Seq<char>>) -> Result<Seq<char>, Seq<char>> {
    match spec_resolve_features(features) {
        Err(e) => Err(e),
        Ok(f) => match find_first(d.options@, chip_option_named(selected_option(d, features))) {
            None => Err(msg_missing_option(d.name@, selected_option(d, features), chip_option_names(d))),
            Some(k) => {
                let o = d.options@[k];
                match spec_variant_error(views(o.regions@), f.1) {
                    Some(e) => Err(e),
                    None => Ok(spec_render_variant(views(o.regions@), f.1, spec_feature_label(o.name@, d.default_option@, f.1))),
                }
            },
        },
    }
}

fn render_chip_features_checked(dump: &ChipDump, features: &[String]) -> (r: Result<String, String>)
    ensures
        match spec_render_chip_features(*dump, texts(features@)) {
            Ok(t) => r matches Ok(x) && x@ == t,
            Err(e) => r matches Err(x) && x@ == e,
        },
{
    if let Some(e) = features_error(features) {
        return Err(e);
    }
    let (opt_arg, splits) = resolve_features(features);
    let want: &str = match &opt_arg {
        Some(o) => o.as_str(),
        None => dump.default_option.as_str(),
    };
    assert(want@ == selected_option(*dump, texts(features@)));
    if let Some(e) = find_option_error(dump, want) {
        return Err(e);
    }
    let option = find_option(dump, want);
    if let Some(e) = variant_error(option.regions.as_slice(), &splits) {
        return Err(e);
    }
    let label = feature_label(option.name.as_str(), dump.default_option.as_str(), &splits);
    Ok(render_variant(option.regions.as_slice(), &splits, label.as_str()))
}

/// The error with which the command stops on a chip when features are given, if any.
pub fn chip_features_error(dump: &ChipDump, features: &[String]) -> (r: Option<String>)
    ensures
        match spec_render_chip_features(*dump, texts(features@)) {
            Ok(_) => r is None,
            Err(e) => r matches Some(x) && x@ == e,
        },
{
    match render_chip_features_checked(dump, features) {
        Ok(_) => None,
        Err(e) => Some(e),
    }
}

/// The command's output for a chip when features are given: the variant they select (the
/// default when they name none), rendered with the bank prefixes they keep split.
pub fn render_chip_features(dump: &ChipDump, features: &[String]) -> (r: String)
    requires
        spec_render_chip_features(*dump, texts(features@)) is Ok,
    ensures
        r@ == spec_render_chip_features(*dump, texts(features@))->Ok_0,
{
    match render_chip_features_checked(dump, features) {
        Ok(t) => t,
        Err(_) => String::new(),
    }
}


// ---------------------------------------------------------------------------------------------
// Every variant of a chip

/// Key `a` comes strictly after key `b`, where a variant's key is whether it is not the
/// default, then its name.
pub open spec fn key_after(a: Seq<char>, b: Seq<char>, default: Seq<char>) -> bool {
    ||| (a != default && b == default)
    ||| ((a != default) == (b != default) && text_lt(b, a))
}

/// Predicate: variant `a` of the chip comes strictly after variant `b`.
pub open spec fn option_after(d: ChipDump) -> spec_fn(usize, usize) -> bool {
    |a: usize, b: usize| key_after(d.options@[a as int].name@, d.options@[b as int].name@, d.default_option@)
}

/// The positions of the variants of a chip.
pub open spec fn option_positions(d: ChipDump) -> Seq<usize> {
    Seq::new(d.options@.len(), |i: int| i as usize)
}

/// The order in which every variant is rendered: the default first, then by name; variants of
/// equal key keep their order.
pub open spec fn option_order(d: ChipDump) -> Seq<usize> {
    insertion_sort(option_positions(d), option_after(d))
}

fn option_comes_after(dump: &ChipDump, a: usize, b: usize) -> (r: bool)
    requires
        a < dump.options@.len(),
        b < dump.options@.len(),
    ensures
        r == option_after(*dump)(a, b),
{
    let na = dump.options[a].name.as_str();
    let nb = dump.options[b].name.as_str();
    let d = dump.default_option.as_str();
    let fa = !str_eq(na, d);
    let fb = !str_eq(nb, d);
    (fa && !fb) || (fa == fb && crate::order::str_lt(nb, na))
}

fn order_options(dump: &ChipDump) -> (r: Vec<usize>)
    ensures
        r@ == option_order(*dump),
        forall|k: int| 0 <= k < r@.len() ==> r@[k] < dump.options@.len(),
        r@.len() == dump.options@.len(),
{
    let ghost idx = option_positions(*dump);
    let ghost gt = option_after(*dump);
    let n = dump.options.len();
    let mut out: Vec<usize> = Vec::new();
    let mut i: usize = 0;
    assert(idx.take(0) =~= Seq::<usize>::empty());
    while i < n
        invariant
            n == dump.options@.len(),
            idx == option_positions(*dump),
            gt == option_after(*dump),
            i <= n,
            out@ == insertion_sort(idx.take(i as int), gt),
            forall|k: int| 0 <= k < out@.len() ==> out@[k] < n,
            out@.len() == i,
        decreases n - i,
    {
        let mut pos: usize = 0;
        while pos < out.len() && !option_comes_after(dump, out[pos], i)
            invariant
                n == dump.options@.len(),
                i < n,
                gt == option_after(*dump),
                pos <= out@.len(),
                forall|k: int| 0 <= k < out@.len() ==> out@[k] < n,
                forall|j: int| 0 <= j < pos ==> !gt(#[trigger] out@[j], i),
            decreases out@.len() - pos,
        {
            pos += 1;
        }
        proof {
            assert(idx[i as int] == i);
            lemma_insert_pos_is(out@, i, gt, pos as int);
            lemma_insertion_sort_push(idx, i as int, gt);
        }
        out.insert(pos, i);
        i += 1;
    }
    assert(idx.take(n as int) =~= idx);
    out
}

/// The bank prefixes of a variant that two of its regions share.
pub open spec fn option_prefixes(o: ChipOption) -> Seq<Seq<char>> {
    spec_split_prefixes(views(o.regions@).map_values(|r: RegionView| r.name))
}

/// The prefixes of `ps` among the first `i` whose bit is set in `mask`, in order.
pub open spec fn mask_subset(ps: Seq<Seq<char>>, mask: u32, i: int) -> Seq<Seq<char>>
    decreases i,
{
    if i <= 0 {
        Seq::empty()
    } else {
        mask_subset(ps, mask, i - 1) + if (mask >> ((i - 1) as u32)) & 1u32 == 1u32 {
            seq![ps[i - 1]]
        } else {
            Seq::empty()
        }
    }
}

/// The split prefixes that `mask` selects.
pub open spec fn variant_splits(ps: Seq<Seq<char>>, mask: u32) -> Seq<Seq<char>> {
    mask_subset(ps, mask, ps.len() as int)
}

/// The variants of one memory configuration, for the first `m` masks, each followed by an empty
/// line.
pub open spec fn option_variants(d: ChipDump, o: ChipOption, ps: Seq<Seq<char>>, m: u32) -> Seq<char>
    decreases m,
{
    if m == 0 {
        Seq::empty()
    } else {
        let splits = variant_splits(ps, (m - 1) as u32);
        option_variants(d, o, ps, (m - 1) as u32) + spec_render_variant(
            views(o.regions@),
            splits,
            spec_feature_label(o.name@, d.default_option@, splits),
        ) + seq!['\n']
    }
}

/// Every variant of one memory configuration: one per subset of its shared bank prefixes.
pub open spec fn spec_option_all(d: ChipDump, o: ChipOption) -> Seq<char> {
    option_variants(d, o, option_prefixes(o), 1u32 << (option_prefixes(o).len() as u32))
}

/// The variants of the first `k` configurations in rendering order.
pub open spec fn chip_all_upto(d: ChipDump, order: Seq<usize>, k: int) -> Seq<char>
    decreases k,
{
    if k <= 0 {
        Seq::empty()
    } else {
        chip_all_upto(d, order, k - 1) + spec_option_all(d, d.options@[order[k - 1] as int])
    }
}

/// The command's output for a chip when no features are given: every variant of every memory
/// configuration.
pub open spec fn spec_render_chip_all(d: ChipDump) -> Seq<char> {
    chip_all_upto(d, option_order(d), d.options@.len() as int)
}

/// Every variant of every configuration of the chip renders, and no configuration has 32 or
/// more shared bank prefixes.
pub open spec fn all_variants_render(d: ChipDump) -> bool {
    forall|i: int| 0 <= i < d.options@.len() ==> {
        let o = #[trigger] d.options@[i];
        &&& option_prefixes(o).len() < 32
        &&& forall|m: u32| m < (1u32 << (option_prefixes(o).len() as u32))
            ==> variant_renders(views(o.regions@), #[trigger] variant_splits(option_prefixes(o), m))
    }
}

fn subset_of(prefixes: &Vec<String>, mask: u32) -> (r: Vec<String>)
    requires
        prefixes@.len() < 32,
    ensures
        texts(r@) == variant_splits(texts(prefixes@), mask),
{
    let ghost ps = texts(prefixes@);
    let mut out: Vec<String> = Vec::new();
    let mut i: usize = 0;
    while i < prefixes.len()
        invariant
            ps == texts(prefixes@),
            prefixes@.len() < 32,
            i <= prefixes@.len(),
            texts(out@) == mask_subset(ps, mask, i as int),
        decreases prefixes@.len() - i,
    {
        let sh: u32 = i as u32;
        let bit = mask & (1u32 << sh) != 0;
        assert(bit == ((mask >> sh) & 1u32 == 1u32)) by (bit_vector)
            requires
                sh < 32,
                bit == (mask & (1u32 << sh) != 0),
        ;
        let ghost prev = texts(out@);
        if bit {
            out.push(prefixes[i].clone());
            assert(texts(out@) =~= prev + seq![ps[i as int]]);
        } else {
            assert(texts(out@) =~= prev + Seq::<Seq<char>>::empty());
        }
        i += 1;
    }
    out
}

fn region_names_of(o: &ChipOption) -> (r: Vec<&str>)
    ensures
        str_texts(r@) == views(o.regions@).map_values(|x: RegionView| x.name),
{
    let mut names: Vec<&str> = Vec::new();
    let mut i: usize = 0;
    while i < o.regions.len()
        invariant
            i <= o.regions@.len(),
            str_texts(names@) == views(o.regions@).map_values(|x: RegionView| x.name).take(i as int),
        decreases o.regions@.len() - i,
    {
        let ghost prev = str_texts(names@);
        names.push(o.regions[i].name.as_str());
        i += 1;
        assert(str_texts(names@) =~= prev.push(o.regions@[i - 1].name@));
        assert(views(o.regions@).map_values(|x: RegionView| x.name).take(i as int) =~= views(o.regions@).map_values(
            |x: RegionView| x.name,
        ).take(i - 1).push(o.regions@[i - 1].name@));
    }
    assert(views(o.regions@).map_values(|x: RegionView| x.name).take(i as int) =~= views(o.regions@).map_values(
        |x: RegionView| x.name,
    ));
    names
}

fn push_option_all(out: &mut Vec<char>, dump: &ChipDump, o: &ChipOption)
    requires
        option_prefixes(*o).len() < 32,
        forall|m: u32| m < (1u32 << (option_prefixes(*o).len() as u32))
            ==> variant_renders(views(o.regions@), #[trigger] variant_splits(option_prefixes(*o), m)),
    ensures
        final(out)@ == old(out)@ + spec_option_all(*dump, *o),
{
    let names = region_names_of(o);
    let prefixes = split_prefixes_from_names(names.as_slice());
    let ghost ps = texts(prefixes@);
    assert(ps == option_prefixes(*o));
    let n: u32 = prefixes.len() as u32;
    let count: u32 = 1u32 << n;
    let mut mask: u32 = 0;
    while mask < count
        invariant
            ps == texts(prefixes@),
            ps == option_prefixes(*o),
            prefixes@.len() < 32,
            n == prefixes@.len(),
            count == 1u32 << n,
            mask <= count,
            forall|m: u32| m < count ==> variant_renders(views(o.regions@), #[trigger] variant_splits(ps, m)),
            out@ == old(out)@ + option_variants(*dump, *o, ps, mask),
        decreases count - mask,
    {
        let splits = subset_of(&prefixes, mask);
        let label = feature_label(o.name.as_str(), dump.default_option.as_str(), &splits);
        assert(variant_renders(views(o.regions@), variant_splits(ps, mask)));
        let text = render_variant(o.regions.as_slice(), &splits, label.as_str());
        push_str(out, text.as_str());
        out.push('\n');
        mask += 1;
        assert(out@ =~= old(out)@ + option_variants(*dump, *o, ps, mask));
    }
}

/// The command's output for a chip when no features are given: for each memory configuration
/// (the default first, then by name), one variant per subset of its shared bank prefixes, each
/// followed by an empty line.
pub fn render_chip_all(dump: &ChipDump) -> (r: String)
    requires
        all_variants_render(*dump),
    ensures
        r@ == spec_render_chip_all(*dump),
{
    let order = order_options(dump);
    let ghost ord = option_order(*dump);
    let mut out: Vec<char> = Vec::new();
    let mut k: usize = 0;
    while k < order.len()
        invariant
            order@ == ord,
            ord == option_order(*dump),
            order@.len() == dump.options@.len(),
            forall|j: int| 0 <= j < order@.len() ==> order@[j] < dump.options@.len(),
            all_variants_render(*dump),
            k <= order@.len(),
            out@ == chip_all_upto(*dump, ord, k as int),
        decreases order@.len() - k,
    {
        let o = &dump.options[order[k]];
        assert(*o == dump.options@[order@[k as int] as int]);
        push_option_all(&mut out, dump, o);
        k += 1;
    }
    string_from_chars(&out)
}

/// Every variant of the configuration renders, and it has fewer than 32 shared bank prefixes.
pub open spec fn option_renders(o: ChipOption) -> bool {
    &&& option_prefixes(o).len() < 32
    &&& forall|m: u32| m < (1u32 << (option_prefixes(o).len() as u32))
        ==> variant_renders(views(o.regions@), #[trigger] variant_splits(option_prefixes(o), m))
}

/// Predicate on a mask: the configuration's variant for it does not render.
pub open spec fn mask_fails(o: ChipOption) -> spec_fn(int) -> bool {
    |m: int| !variant_renders(views(o.regions@), variant_splits(option_prefixes(o), m as u32))
}

/// The masks of a configuration's variants, in rendering order.
pub open spec fn option_masks(o: ChipOption) -> Seq<int> {
    Seq::new((1u32 << (option_prefixes(o).len() as u32)) as nat, |m: int| m)
}

/// The error with which the command stops on a configuration, if any: a shift overflow for 32
/// or more shared bank prefixes, else the error of its first variant that does not render.
pub open spec fn spec_option_error(o: ChipOption) -> Option<Seq<char>> {
    if option_prefixes(o).len() >= 32 {
        Some("attempt to shift left with overflow"@)
    } else {
        match find_first(option_masks(o), mask_fails(o)) {
            None => None,
            Some(k) => spec_variant_error(views(o.regions@), variant_splits(option_prefixes(o), option_masks(o)[k] as u32)),
        }
    }
}

/// Predicate on a configuration's position: it does not render.
pub open spec fn option_fails(d: ChipDump) -> spec_fn(usize) -> bool {
    |i: usize| !option_renders(d.options@[i as int])
}

/// The error with which the command stops on a chip when no features are given, if any: that of
/// the first configuration in rendering order that does not render.
pub open spec fn spec_chip_all_error(d: ChipDump) -> Option<Seq<char>> {
    match find_first(option_order(d), option_fails(d)) {
        None => None,
        Some(k) => spec_option_error(d.options@[option_order(d)[k] as int]),
    }
}

/// The error of one configuration (see `spec_option_error`).
fn option_error(o: &ChipOption) -> (r: Option<String>)
    ensures
        r is None <==> option_renders(*o),
        match spec_option_error(*o) {
            Some(e) => r matches Some(t) && t@ == e,
            None => r is None,
        },
{
    let names = region_names_of(o);
    let prefixes = split_prefixes_from_names(names.as_slice());
    let ghost ps = texts(prefixes@);
    assert(ps == option_prefixes(*o));
    if prefixes.len() >= 32 {
        return Some(String::from_str("attempt to shift left with overflow"));
    }
    let n: u32 = prefixes.len() as u32;
    let count: u32 = 1u32 << n;
    let ghost masks = option_masks(*o);
    let mut mask: u32 = 0;
    while mask < count
        invariant
            ps == texts(prefixes@),
            ps == option_prefixes(*o),
            prefixes@.len() < 32,
            n == prefixes@.len(),
            count == 1u32 << n,
            masks == option_masks(*o),
            masks.len() == count,
            mask <= count,
            forall|m: u32| m < mask ==> variant_renders(views(o.regions@), #[trigger] variant_splits(ps, m)),
        decreases count - mask,
    {
        let splits = subset_of(&prefixes, mask);
        if let Some(e) = variant_error(o.regions.as_slice(), &splits) {
            proof {
                assert(masks[mask as int] == mask as int);
                assert forall|j: int| 0 <= j < mask implies !mask_fails(*o)(#[trigger] masks[j]) by {
                    assert(masks[j] == j);
                    assert(variant_renders(views(o.regions@), variant_splits(ps, j as u32)));
                }
                lemma_find_first_is(masks, mask_fails(*o), mask as int);
            }
            return Some(e);
        }
        mask += 1;
    }
    proof {
        assert forall|j: int| 0 <= j < masks.len() implies !mask_fails(*o)(#[trigger] masks[j]) by {
            assert(masks[j] == j);
            assert(variant_renders(views(o.regions@), variant_splits(ps, j as u32)));
        }
        lemma_find_first_none(masks, mask_fails(*o));
    }
    None
}

/// The error with which the command stops on a chip when no features are given, if any: that of
/// the first configuration in rendering order that does not render.
pub fn chip_all_error(dump: &ChipDump) -> (r: Option<String>)
    ensures
        r is None <==> all_variants_render(*dump),
        match spec_chip_all_error(*dump) {
            Some(e) => r matches Some(t) && t@ == e,
            None => r is None,
        },
{
    let order = order_options(dump);
    let ghost ord = option_order(*dump);
    let mut k: usize = 0;
    while k < order.len()
        invariant
            order@ == ord,
            ord == option_order(*dump),
            order@.len() == dump.options@.len(),
            forall|j: int| 0 <= j < order@.len() ==> order@[j] < dump.options@.len(),
            k <= order@.len(),
            forall|j: int| 0 <= j < k ==> !option_fails(*dump)(#[trigger] ord[j]),
        decreases order@.len() - k,
    {
        let o = &dump.options[order[k]];
        assert(*o == dump.options@[ord[k as int] as int]);
        if let Some(e) = option_error(o) {
            proof {
                lemma_find_first_is(ord, option_fails(*dump), k as int);
                assert(!all_variants_render(*dump)) by {
                    let i = ord[k as int] as int;
                    assert(!option_renders(dump.options@[i]));
                }
            }
            return Some(e);
        }
        k += 1;
    }
    proof {
        lemma_find_first_none(ord, option_fails(*dump));
        assert forall|i: int| 0 <= i < dump.options@.len() implies option_renders(#[trigger] dump.options@[i]) by {
            let y = i as usize;
            assert(option_positions(*dump)[i] == y);
            crate::order::lemma_insertion_sort_keeps(option_positions(*dump), option_after(*dump), y);
            let j = choose|j: int| 0 <= j < ord.len() && ord[j] == y;
            assert(!option_fails(*dump)(ord[j]));
        }
    }
    None
}

} // verus!
