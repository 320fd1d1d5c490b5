//! Adjusting the register-access code that is rendered for one core: line breaks after
//! attributes, the interrupt plumbing of each architecture, interrupt numbers relative to the
//! first external interrupt, and the vector table without the system vectors.
use vstd::prelude::*;

use crate::chip::Arch;
use crate::fmt::{push_decimal, push_str, spec_decimal, string_from_chars};
use crate::order::texts;
use crate::text::{parse_unsigned, spec_parse_unsigned};

verus! {

// ---------------------------------------------------------------------------------------------
// Text replacement

/// Each character of `s` followed by `to`.
pub open spec fn each_then(s: Seq<char>, to: Seq<char>) -> Seq<char>
    decreases s.len(),
{
    if s.len() == 0 {
        Seq::empty()
    } else {
        seq![s[0]] + to + each_then(s.drop_first(), to)
    }
}

/// `s` with every non-overlapping occurrence of `from`, scanning from the left, replaced by
/// `to`, as `str::replace` does; an empty `from` occurs before every character and at the end.
pub open spec fn spec_replace(s: Seq<char>, from: Seq<char>, to: Seq<char>) -> Seq<char>
    decreases s.len(),
{
    if from.len() == 0 {
        to + each_then(s, to)
    } else if s.len() < from.len() {
        s
    } else if s.take(from.len() as int) == from {
        to + spec_replace(s.skip(from.len() as int), from, to)
    } else {
        seq![s[0]] + spec_replace(s.drop_first(), from, to)
    }
}

fn matches_at(s: &str, n: usize, i: usize, from: &str, m: usize) -> (r: bool)
    requires
        n == s@.len(),
        m == from@.len(),
        i <= n,
        m <= n - i,
    ensures
        r == (s@.skip(i as int).take(m as int) == from@),
{
    let mut k: usize = 0;
    while k < m
        invariant
            n == s@.len(),
            m == from@.len(),
            i <= n,
            m <= n - i,
            k <= m,
            forall|j: int| 0 <= j < k ==> #[trigger] s@[i + j] == from@[j],
        decreases m - k,
    {
        if s.get_char(i + k) != from.get_char(k) {
            assert(s@.skip(i as int).take(m as int)[k as int] != from@[k as int]);
            return false;
        }
        k += 1;
    }
    assert forall|j: int| 0 <= j < m implies #[trigger] s@.skip(i as int).take(m as int)[j] == from@[j] by {
        assert(s@[i + j] == from@[j]);
    }
    assert(s@.skip(i as int).take(m as int) =~= from@);
    true
}

/// `s` with every occurrence of `from` replaced by `to`.
pub fn replace_text(s: &str, from: &str, to: &str) -> (r: String)
    ensures
        r@ == spec_replace(s@, from@, to@),
{
    let n = s.unicode_len();
    let m = from.unicode_len();
    let mut out: Vec<char> = Vec::new();
    if m == 0 {
        push_str(&mut out, to);
        let mut i: usize = 0;
        assert(s@.skip(0) =~= s@);
        while i < n
            invariant
                n == s@.len(),
                i <= n,
                out@ + each_then(s@.skip(i as int), to@) == to@ + each_then(s@, to@),
            decreases n - i,
        {
            let ghost rest = s@.skip(i as int);
            let ghost prev = out@;
            assert(rest[0] == s@[i as int]);
            assert(rest.drop_first() =~= s@.skip(i + 1));
            out.push(s.get_char(i));
            push_str(&mut out, to);
            i += 1;
            assert(out@ + each_then(s@.skip(i as int), to@) =~= prev + each_then(rest, to@));
        }
        assert(s@.skip(n as int) =~= Seq::<char>::empty());
        assert(out@ + Seq::<char>::empty() =~= out@);
        return string_from_chars(&out);
    }
    let mut i: usize = 0;
    assert(s@.skip(0) =~= s@);
    while i < n
        invariant
            n == s@.len(),
            m == from@.len(),
            m > 0,
            i <= n,
            out@ + spec_replace(s@.skip(i as int), from@, to@) == spec_replace(s@, from@, to@),
        decreases n - i,
    {
        let ghost rest = s@.skip(i as int);
        if m <= n - i && matches_at(s, n, i, from, m) {
            assert(rest.take(m as int) == from@);
            assert(rest.skip(m as int) =~= s@.skip(i + m));
            let ghost prev = out@;
            push_str(&mut out, to);
            assert(out@ + spec_replace(s@.skip(i + m), from@, to@) =~= prev + spec_replace(rest, from@, to@));
            i += m;
        } else {
            if m <= n - i {
                assert(rest.take(m as int) != from@);
            }
            assert(rest[0] == s@[i as int]);
            assert(rest.drop_first() =~= s@.skip(i + 1));
            let ghost prev = out@;
            out.push(s.get_char(i));
            proof {
                if rest.len() >= m {
                    assert(out@ + spec_replace(s@.skip(i + 1), from@, to@) =~= prev + spec_replace(rest, from@, to@));
                } else {
                    assert(spec_replace(rest, from@, to@) == rest);
                    assert(spec_replace(s@.skip(i + 1), from@, to@) == s@.skip(i + 1));
                    assert(out@ + spec_replace(s@.skip(i + 1), from@, to@) =~= prev + spec_replace(rest, from@, to@));
                }
            }
            i += 1;
        }
    }
    assert(s@.skip(n as int) =~= Seq::<char>::empty());
    assert(out@ + Seq::<char>::empty() =~= out@);
    string_from_chars(&out)
}

/// `t` occurs in `s`.
pub open spec fn spec_contains_text(s: Seq<char>, t: Seq<char>) -> bool {
    exists|i: int| 0 <= i && i + t.len() <= s.len() && #[trigger] s.skip(i).take(t.len() as int) == t
}

/// Whether `t` occurs in `s`.
pub fn contains_text(s: &str, t: &str) -> (r: bool)
    ensures
        r == spec_contains_text(s@, t@),
{
    let n = s.unicode_len();
    let m = t.unicode_len();
    if m > n {
        return false;
    }
    if m == 0 {
        assert(s@.skip(0).take(0) =~= t@);
        return true;
    }
    let mut i: usize = 0;
    while i <= n - m
        invariant
            n == s@.len(),
            m == t@.len(),
            1 <= m <= n,
            i <= n - m + 1,
            forall|j: int| 0 <= j < i ==> #[trigger] s@.skip(j).take(m as int) != t@,
        decreases n + 1 - i,
    {
        if matches_at(s, n, i, t, m) {
            return true;
        }
        i += 1;
    }
    false
}

// ---------------------------------------------------------------------------------------------
// Regular expressions

/// The fixed patterns that the generator matches in rendered text.
pub enum PacPattern {
    /// An enum variant with its number: `NAME = 42 ,`.
    Discriminant,
    /// A doc attribute that starts with an interrupt number: `# [doc = "42 - `.
    DocNumber,
    /// The sixteen reserved system vectors at the start of the vector table.
    SystemVectors,
    /// The length of the vector table type: `: [Vector ; 42]`.
    VectorLength,
    /// An inner attribute such as `#![no_std]`.
    InnerAttribute,
    /// The quoted placeholder that stands for a block's register description: `":ir_for:gpio:"`.
    IrPlaceholder,
}

/// The text of a pattern.
pub open spec fn pattern_text(p: PacPattern) -> Seq<char> {
    match p {
        PacPattern::Discriminant => "([A-Z][A-Z0-9_]*) = (\\d+) ,"@,
        PacPattern::DocNumber => "# \\[doc = \"(\\d+) - "@,
        PacPattern::SystemVectors => "\\[(Vector \\{ _reserved : 0 \\} , ){16}"@,
        PacPattern::VectorLength => ": \\[Vector ; (\\d+)\\]"@,
        PacPattern::InnerAttribute => "# *! *\\[.*\\]"@,
        PacPattern::IrPlaceholder => "\":ir_for:([a-z0-9]+):\""@,
    }
}

/// The text of a pattern.
pub fn pattern_str(p: PacPattern) -> (r: &'static str)
    ensures
        r@ == pattern_text(p),
{
    match p {
        PacPattern::Discriminant => "([A-Z][A-Z0-9_]*) = (\\d+) ,",
        PacPattern::DocNumber => "# \\[doc = \"(\\d+) - ",
        PacPattern::SystemVectors => "\\[(Vector \\{ _reserved : 0 \\} , ){16}",
        PacPattern::VectorLength => ": \\[Vector ; (\\d+)\\]",
        PacPattern::InnerAttribute => "# *! *\\[.*\\]",
        PacPattern::IrPlaceholder => "\":ir_for:([a-z0-9]+):\"",
    }
}

/// One of the fixed patterns, which the regular-expression crate compiles.
pub open spec fn fixed_pattern(pattern: Seq<char>) -> bool {
    exists|p: PacPattern| pattern_text(p) == pattern
}

/// The texts of the groups of one match.
pub open spec fn group_texts(c: Seq<Option<String>>) -> Seq<Option<Seq<char>>> {
    c.map_values(|g: Option<String>| match g {
        Some(x) => Some(x@),
        None => None,
    })
}

/// The texts of the groups of each match.
pub open spec fn capture_texts(v: Seq<Vec<Option<String>>>) -> Seq<Seq<Option<Seq<char>>>> {
    v.map_values(|c: Vec<Option<String>>| group_texts(c@))
}

/// The text that `Regex::replace_all` gives for `text` with `rep` (with its `$` references
/// expanded) in place of every match of `pattern`.
pub uninterp spec fn regex_replace_all(pattern: Seq<char>, text: Seq<char>, rep: Seq<char>) -> Seq<char>;

/// The pieces of `text` between the matches of `pattern`, as `Regex::split` yields them.
pub uninterp spec fn regex_split(pattern: Seq<char>, text: Seq<char>) -> Seq<Seq<char>>;

/// The capture groups of each match of `pattern` in `text`, as `Regex::captures_iter` yields
/// them: group 0 is the whole match; a group that took no part is `None`.
pub uninterp spec fn regex_captures(pattern: Seq<char>, text: Seq<char>) -> Seq<Seq<Option<Seq<char>>>>;

/// Compiles a fixed pattern with `regex::Regex::new` and replaces every match with
/// `Regex::replace_all`; the result is named, not described.
#[verifier::external_body]
pub(crate) fn replace_all_matches(pattern: &str, text: &str, rep: &str) -> (r: String)
    requires
        fixed_pattern(pattern@),
    ensures
        r@ == regex_replace_all(pattern@, text@, rep@),
{
    regex::Regex::new(pattern).unwrap().replace_all(text, rep).into_owned()
}

/// Compiles a fixed pattern with `regex::Regex::new` and collects the pieces of `Regex::split`;
/// the result is named, not described.
#[verifier::external_body]
fn split_at_matches(pattern: &str, text: &str) -> (r: Vec<String>)
    requires
        fixed_pattern(pattern@),
    ensures
        texts(r@) == regex_split(pattern@, text@),
{
    regex::Regex::new(pattern).unwrap().split(text).map(|p| p.to_string()).collect()
}

/// Compiles a fixed pattern with `regex::Regex::new` and collects the groups of each match of
/// `Regex::captures_iter`; the result is named, not described.
#[verifier::external_body]
fn capture_matches(pattern: &str, text: &str) -> (r: Vec<Vec<Option<String>>>)
    requires
        fixed_pattern(pattern@),
    ensures
        capture_texts(r@) == regex_captures(pattern@, text@),
{
    regex::Regex::new(pattern)
        .unwrap()
        .captures_iter(text)
        .map(|caps| caps.iter().map(|g| g.map(|m| m.as_str().to_string())).collect())
        .collect()
}

// ---------------------------------------------------------------------------------------------
// Numbered matches

/// The text of an integer in decimal, with a `-` when negative.
pub open spec fn int_text(x: int) -> Seq<char> {
    if x < 0 {
        seq!['-'] + spec_decimal((-x) as nat)
    } else {
        spec_decimal(x as nat)
    }
}

/// The number of group `k` of a match, when the group took part and its digits fit `max`.
pub open spec fn group_number(caps: Seq<Option<Seq<char>>>, k: int, max: nat) -> Option<nat> {
    if 0 <= k < caps.len() && caps[k] is Some {
        spec_parse_unsigned(caps[k]->Some_0, 10, max)
    } else {
        None
    }
}

/// What a match of a numbered pattern becomes: `None` where the generator stops (a number that
/// does not parse, or a vector length below 16).
pub open spec fn renumbered(p: PacPattern, caps: Seq<Option<Seq<char>>>) -> Option<Seq<char>> {
    match p {
        PacPattern::Discriminant => match group_number(caps, 2, i32::MAX as nat) {
            Some(n) => if caps.len() > 1 && caps[1] is Some {
                Some(caps[1]->Some_0 + " = "@ + int_text(n - 16) + " ,"@)
            } else {
                None
            },
            None => None,
        },
        PacPattern::DocNumber => match group_number(caps, 1, i32::MAX as nat) {
            Some(n) => Some("# [doc = \""@ + int_text(n - 16) + " - "@),
            None => None,
        },
        PacPattern::VectorLength => match group_number(caps, 1, usize::MAX as nat) {
            Some(n) => if n >= 16 {
                Some(": [Vector ; "@ + spec_decimal((n - 16) as nat) + "]"@)
            } else {
                None
            },
            None => None,
        },
        _ => None,
    }
}

/// The pieces between matches with the replacements of the matches put back between them.
pub open spec fn rebuild(gaps: Seq<Seq<char>>, reps: Seq<Seq<char>>) -> Seq<char>
    decreases gaps.len(),
{
    if gaps.len() == 0 {
        Seq::empty()
    } else if gaps.len() == 1 {
        gaps[0]
    } else {
        rebuild(gaps.drop_last(), reps) + (if gaps.len() - 2 < reps.len() {
            reps[gaps.len() - 2]
        } else {
            Seq::empty()
        }) + gaps.last()
    }
}

/// The replacements of the first `k` matches, or `None` when one of them cannot be made.
pub open spec fn renumber_all(p: PacPattern, caps: Seq<Seq<Option<Seq<char>>>>, k: int) -> Option<Seq<Seq<char>>>
    decreases k,
{
    if k <= 0 {
        Some(Seq::empty())
    } else {
        match renumber_all(p, caps, k - 1) {
            None => None,
            Some(rs) => match renumbered(p, caps[k - 1]) {
                None => None,
                Some(r) => Some(rs.push(r)),
            },
        }
    }
}

/// `text` with every match of a numbered pattern renumbered, or `None` where the generator stops.
pub open spec fn spec_renumber(p: PacPattern, text: Seq<char>) -> Option<Seq<char>> {
    let caps = regex_captures(pattern_text(p), text);
    match renumber_all(p, caps, caps.len() as int) {
        None => None,
        Some(reps) => Some(rebuild(regex_split(pattern_text(p), text), reps)),
    }
}

fn push_int(out: &mut Vec<char>, x: i64)
    requires
        -0x1_0000_0000 < x < 0x1_0000_0000,
    ensures
        final(out)@ == old(out)@ + int_text(x as int),
{
    if x < 0 {
        out.push('-');
        push_decimal(out, (-x) as u64);
    } else {
        push_decimal(out, x as u64);
    }
}

fn renumber_match(p: &PacPattern, caps: &Vec<Option<String>>) -> (r: Option<String>)
    ensures
        match renumbered(*p, group_texts(caps@)) {
            Some(t) => r matches Some(x) && x@ == t,
            None => r is None,
        },
{
    let ghost cv = group_texts(caps@);
    let k: usize = match p {
        PacPattern::Discriminant => 2,
        PacPattern::DocNumber => 1,
        PacPattern::VectorLength => 1,
        _ => {
            return None;
        },
    };
    let max: u64 = match p {
        PacPattern::VectorLength => usize::MAX as u64,
        _ => 0x7fff_ffff,
    };
    if k >= caps.len() {
        return None;
    }
    let n = match &caps[k] {
        None => {
            return None;
        },
        Some(digits) => match parse_unsigned(digits.as_str(), 10, max) {
            None => {
                return None;
            },
            Some(n) => n,
        },
    };
    assert(cv[k as int] == match caps@[k as int] { Some(x) => Some(x@), None => None });
    let mut out: Vec<char> = Vec::new();
    match p {
        PacPattern::Discriminant => {
            if caps.len() <= 1 {
                return None;
            }
            match &caps[1] {
                None => {
                    return None;
                },
                Some(name) => {
                    assert(cv[1] == Some(name@));
                    push_str(&mut out, name.as_str());
                    push_str(&mut out, " = ");
                    push_int(&mut out, n as i64 - 16);
                    push_str(&mut out, " ,");
                    assert(out@ =~= name@ + " = "@ + int_text(n - 16) + " ,"@);
                },
            }
        },
        PacPattern::DocNumber => {
            push_str(&mut out, "# [doc = \"");
            push_int(&mut out, n as i64 - 16);
            push_str(&mut out, " - ");
            assert(out@ =~= "# [doc = \""@ + int_text(n - 16) + " - "@);
        },
        _ => {
            if n < 16 {
                return None;
            }
            push_str(&mut out, ": [Vector ; ");
            push_decimal(&mut out, n - 16);
            push_str(&mut out, "]");
            assert(out@ =~= ": [Vector ; "@ + spec_decimal((n - 16) as nat) + "]"@);
        },
    }
    Some(string_from_chars(&out))
}

fn pattern_copy(p: &PacPattern) -> (r: PacPattern)
    ensures
        r == *p,
{
    match p {
        PacPattern::Discriminant => PacPattern::Discriminant,
        PacPattern::DocNumber => PacPattern::DocNumber,
        PacPattern::SystemVectors => PacPattern::SystemVectors,
        PacPattern::VectorLength => PacPattern::VectorLength,
        PacPattern::InnerAttribute => PacPattern::InnerAttribute,
        PacPattern::IrPlaceholder => PacPattern::IrPlaceholder,
    }
}

/// `text` with every match of the numbered pattern `p` renumbered, or `None` where the generator
/// stops.
pub fn renumber(p: PacPattern, text: &str) -> (r: Option<String>)
    ensures
        match spec_renumber(p, text@) {
            Some(t) => r matches Some(x) && x@ == t,
            None => r is None,
        },
{
    let pat = pattern_str(pattern_copy(&p));
    assert(fixed_pattern(pat@));
    let caps = capture_matches(pat, text);
    let gaps = split_at_matches(pat, text);
    let ghost cs = regex_captures(pattern_text(p), text@);
    assert(capture_texts(caps@) == cs);
    assert(cs.len() == caps@.len());
    let mut reps: Vec<String> = Vec::new();
    let mut i: usize = 0;
    while i < caps.len()
        invariant
            cs == regex_captures(pattern_text(p), text@),
            capture_texts(caps@) == cs,
            cs.len() == caps@.len(),
            i <= caps@.len(),
            renumber_all(p, cs, i as int) == Some(texts(reps@)),
        decreases caps@.len() - i,
    {
        assert(cs[i as int] == group_texts(caps@[i as int]@));
        match renumber_match(&p, &caps[i]) {
            None => {
                assert(renumber_all(p, cs, i + 1) is None);
                proof {
                    lemma_renumber_none_stays(p, cs, i + 1, cs.len() as int);
                    assert(spec_renumber(p, text@) is None);
                }
                return None;
            },
            Some(r) => {
                let ghost prev = texts(reps@);
                let ghost rv = r@;
                reps.push(r);
                assert(texts(reps@) =~= prev.push(rv));
            },
        }
        i += 1;
    }
    let ghost g = texts(gaps@);
    let ghost rs = texts(reps@);
    let mut out: Vec<char> = Vec::new();
    let mut j: usize = 0;
    while j < gaps.len()
        invariant
            g == texts(gaps@),
            rs == texts(reps@),
            j <= gaps@.len(),
            out@ == rebuild(g.take(j as int), rs),
        decreases gaps@.len() - j,
    {
        if j > 0 && j - 1 < reps.len() {
            push_str(&mut out, reps[j - 1].as_str());
        }
        push_str(&mut out, gaps[j].as_str());
        j += 1;
        assert(g.take(j as int).drop_last() =~= g.take(j - 1));
        if j == 1 {
            assert(out@ =~= rebuild(g.take(j as int), rs));
        } else {
            assert(out@ =~= rebuild(g.take(j as int), rs));
        }
    }
    assert(g.take(gaps@.len() as int) =~= g);
    Some(string_from_chars(&out))
}

proof fn lemma_renumber_none_stays(p: PacPattern, caps: Seq<Seq<Option<Seq<char>>>>, k: int, n: int)
    requires
        k <= n,
        renumber_all(p, caps, k) is None,
    ensures
        renumber_all(p, caps, n) is None,
    decreases n - k,
{
    if k < n {
        lemma_renumber_none_stays(p, caps, k, n - 1);
    }
}


// ---------------------------------------------------------------------------------------------
// The whole adjustment

/// Line breaks after attributes, and no re-export of the Cortex-M runtime's interrupt attribute.
pub open spec fn common_fixes(s: Seq<char>) -> Seq<char> {
    spec_replace(spec_replace(s, "] "@, "]\n"@), "pub use cortex_m_rt :: interrupt ;"@, ""@)
}

/// On RISC-V: the crate's own interrupt-number trait and the names of the external interrupt
/// table of the RISC-V runtime.
pub open spec fn riscv_fixes(d: Seq<char>) -> Seq<char> {
    spec_replace(
        spec_replace(
            spec_replace(d, "cortex_m :: interrupt "@, "crate "@),
            ".vector_table.interrupts"@,
            ".vector_table.external_interrupts"@,
        ),
        "__INTERRUPTS"@,
        "__EXTERNAL_INTERRUPTS"@,
    )
}

/// The fixes of one architecture; on Arm, interrupt numbers count from the first external
/// interrupt (16 less).
pub open spec fn arch_fixes(d: Seq<char>, arch: Arch) -> Option<Seq<char>> {
    match arch {
        Arch::Riscv => Some(riscv_fixes(d)),
        Arch::Arm => match spec_renumber(PacPattern::Discriminant, d) {
            None => None,
            Some(d1) => spec_renumber(PacPattern::DocNumber, d1),
        },
    }
}

/// The steps after the architecture's fixes: the 16 system vectors leave the vector table, its
/// length drops by 16, and inner attributes go; `None` where the table still starts with a
/// reserved vector or its length does not parse or is shorter than 16.
pub open spec fn finish_pac(d: Seq<char>) -> Option<Seq<char>> {
    let d2 = regex_replace_all(pattern_text(PacPattern::SystemVectors), d, "["@);
    if spec_contains_text(d2, "[Vector { _reserved : 0 }"@) {
        None
    } else {
        match spec_renumber(PacPattern::VectorLength, d2) {
            None => None,
            Some(d3) => Some(regex_replace_all(pattern_text(PacPattern::InnerAttribute), d3, ""@)),
        }
    }
}

/// The adjusted code, or `None` where the adjustment stops (a number that does not parse, a
/// vector table that still starts with a reserved vector, or one shorter than 16).
pub open spec fn spec_postprocess_pac(s: Seq<char>, arch: Arch) -> Option<Seq<char>> {
    match arch_fixes(common_fixes(s), arch) {
        None => None,
        Some(d) => finish_pac(d),
    }
}

/// Adjusts the rendered register-access code of a core, or says that the adjustment stops
/// (`None`).
pub fn try_postprocess_pac_rs(s: &str, arch: Arch) -> (r: Option<String>)
    ensures
        match spec_postprocess_pac(s@, arch) {
            Some(t) => r matches Some(x) && x@ == t,
            None => r is None,
        },
{
    proof {
        reveal_strlit("] ");
        reveal_strlit("pub use cortex_m_rt :: interrupt ;");
        reveal_strlit("cortex_m :: interrupt ");
        reveal_strlit(".vector_table.interrupts");
        reveal_strlit("__INTERRUPTS");
    }
    let data = replace_text(s, "] ", "]\n");
    let data = replace_text(data.as_str(), "pub use cortex_m_rt :: interrupt ;", "");
    let data = match arch {
        Arch::Riscv => {
            let d = replace_text(data.as_str(), "cortex_m :: interrupt ", "crate ");
            let d = replace_text(d.as_str(), ".vector_table.interrupts", ".vector_table.external_interrupts");
            replace_text(d.as_str(), "__INTERRUPTS", "__EXTERNAL_INTERRUPTS")
        },
        Arch::Arm => {
            let d = match renumber(PacPattern::Discriminant, data.as_str()) {
                None => {
                    return None;
                },
                Some(d) => d,
            };
            match renumber(PacPattern::DocNumber, d.as_str()) {
                None => {
                    return None;
                },
                Some(d) => d,
            }
        },
    };
    let sv = pattern_str(PacPattern::SystemVectors);
    assert(fixed_pattern(sv@)) by {
        assert(pattern_text(PacPattern::SystemVectors) == sv@);
    }
    let data = replace_all_matches(sv, data.as_str(), "[");
    if contains_text(data.as_str(), "[Vector { _reserved : 0 }") {
        return None;
    }
    let data = match renumber(PacPattern::VectorLength, data.as_str()) {
        None => {
            return None;
        },
        Some(d) => d,
    };
    let ia = pattern_str(PacPattern::InnerAttribute);
    assert(fixed_pattern(ia@)) by {
        assert(pattern_text(PacPattern::InnerAttribute) == ia@);
    }
    Some(replace_all_matches(ia, data.as_str(), ""))
}

/// Adjusts the rendered register-access code of a core: a line break after each attribute, no
/// re-export of the Cortex-M runtime's interrupt attribute; on RISC-V the crate's own
/// interrupt-number trait and the RISC-V runtime's external interrupt table; on Arm interrupt
/// numbers that count from the first external interrupt; and a vector table without the 16
/// system vectors and without inner attributes.
pub fn postprocess_pac_rs(s: String, arch: Arch) -> (r: String)
    requires
        spec_postprocess_pac(s@, arch) is Some,
    ensures
        r@ == spec_postprocess_pac(s@, arch)->Some_0,
{
    match try_postprocess_pac_rs(s.as_str(), arch) {
        Some(t) => t,
        None => s,
    }
}

} // verus!
