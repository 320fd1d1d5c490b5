//! Laws of the `memory.x` dump command: the features printed in a variant's header, given back to
//! the command, select that variant.
use vstd::prelude::*;

use crate::fmt::spec_join;
use crate::order::{insert_sorted, insert_text, lemma_text_lt_irreflexive, strictly_sorted, text_gt, text_lt};
use crate::search::lemma_find_first_is;
use crate::text::{ascii_lower, spec_starts_with, spec_strip_prefix};

use super::{
    chip_option_named, feature_pieces, features_from, is_feature_sep, label_parts, selected_option, spec_feature_label,
    spec_parse_feature_list, spec_render_chip_features, spec_render_variant, spec_resolve_features, spec_variant_error,
};
use crate::generator::dump::ChipDump;
use crate::memory_x_render::views;

verus! {

/// A name that reads back unchanged from a feature list: no separators and no upper-case ASCII.
pub open spec fn plain_name(s: Seq<char>) -> bool {
    forall|i: int| 0 <= i < s.len() ==> !is_feature_sep(#[trigger] s[i]) && ascii_lower(s[i]) == s[i]
}

/// Reading a plain word continues the current piece with it.
proof fn lemma_pieces_word(w: Seq<char>, r: Seq<char>, cur: Seq<char>)
    requires
        plain_name(w),
    ensures
        feature_pieces(w + r, cur) == feature_pieces(r, cur + w),
    decreases w.len(),
{
    if w.len() > 0 {
        let s = w + r;
        assert(s[0] == w[0]);
        assert(s.drop_first() =~= w.drop_first() + r);
        assert(plain_name(w.drop_first())) by {
            assert forall|i: int| 0 <= i < w.drop_first().len() implies !is_feature_sep(#[trigger] w.drop_first()[i])
                && ascii_lower(w.drop_first()[i]) == w.drop_first()[i] by {
                assert(w.drop_first()[i] == w[i + 1]);
            }
        }
        lemma_pieces_word(w.drop_first(), r, cur.push(ascii_lower(w[0])));
        assert(cur.push(ascii_lower(w[0])) + w.drop_first() =~= cur + w);
    } else {
        assert(w + r =~= r);
        assert(cur + w =~= cur);
    }
}

/// A `, ` separator ends the current piece.
proof fn lemma_pieces_separator(r: Seq<char>, cur: Seq<char>)
    requires
        cur.len() > 0,
    ensures
        feature_pieces(", "@ + r, cur) == seq![cur] + feature_pieces(r, Seq::empty()),
{
    reveal_strlit(", ");
    reveal_strlit(" ");
    let s = ", "@ + r;
    assert(s[0] == ',');
    assert(s.drop_first() =~= " "@ + r);
    let t = " "@ + r;
    assert(t[0] == ' ');
    assert(is_feature_sep(' ')) by {
        assert((' ' as u32) == 0x20);
    }
    assert(t.drop_first() =~= r);
    assert(feature_pieces(t, Seq::empty()) == Seq::<Seq<char>>::empty() + feature_pieces(r, Seq::empty()));
    assert(Seq::<Seq<char>>::empty() + feature_pieces(r, Seq::empty()) =~= feature_pieces(r, Seq::empty()));
}

/// Joining at least two parts puts the first part, then the separator, before the rest joined.
proof fn lemma_join_front(parts: Seq<Seq<char>>, sep: Seq<char>)
    requires
        parts.len() >= 2,
    ensures
        spec_join(parts, sep) == parts[0] + sep + spec_join(parts.drop_first(), sep),
    decreases parts.len(),
{
    if parts.len() == 2 {
        assert(parts.drop_last().len() == 1);
        assert(parts.drop_first().len() == 1);
        assert(spec_join(parts.drop_last(), sep) == parts[0]);
        assert(spec_join(parts.drop_first(), sep) == parts[1]);
        assert(spec_join(parts, sep) == spec_join(parts.drop_last(), sep) + sep + parts.last());
    } else {
        lemma_join_front(parts.drop_last(), sep);
        assert(parts.drop_last().drop_first() =~= parts.drop_first().drop_last());
        assert(parts.drop_first().last() == parts.last());
        assert(spec_join(parts, sep) =~= parts[0] + sep + spec_join(parts.drop_first(), sep));
    }
}

/// A list of non-empty plain features joined by `, ` reads back as the same list.
proof fn lemma_parse_joined(parts: Seq<Seq<char>>)
    requires
        parts.len() > 0,
        forall|i: int| 0 <= i < parts.len() ==> (#[trigger] parts[i]).len() > 0 && plain_name(parts[i]),
    ensures
        spec_parse_feature_list(spec_join(parts, ", "@)) == parts,
    decreases parts.len(),
{
    let p0 = parts[0];
    assert(p0.len() > 0 && plain_name(p0));
    if parts.len() == 1 {
        lemma_pieces_word(p0, Seq::empty(), Seq::empty());
        assert(p0 + Seq::<char>::empty() =~= p0);
        assert(Seq::<char>::empty() + p0 =~= p0);
        assert(feature_pieces(Seq::empty(), p0) == seq![p0]);
        assert(parts =~= seq![p0]);
    } else {
        let rest = parts.drop_first();
        assert forall|i: int| 0 <= i < rest.len() implies (#[trigger] rest[i]).len() > 0 && plain_name(rest[i]) by {
            assert(rest[i] == parts[i + 1]);
        }
        lemma_parse_joined(rest);
        lemma_join_front(parts, ", "@);
        let jr = spec_join(rest, ", "@);
        assert(p0 + ", "@ + jr =~= p0 + (", "@ + jr));
        lemma_pieces_word(p0, ", "@ + jr, Seq::empty());
        assert(Seq::<char>::empty() + p0 =~= p0);
        lemma_pieces_separator(jr, p0);
        assert(seq![p0] + rest =~= parts);
    }
}

/// Two plain names make a plain name.
proof fn lemma_plain_concat(a: Seq<char>, b: Seq<char>)
    requires
        plain_name(a),
        plain_name(b),
    ensures
        plain_name(a + b),
{
    assert forall|i: int| 0 <= i < (a + b).len() implies !is_feature_sep(#[trigger] (a + b)[i])
        && ascii_lower((a + b)[i]) == (a + b)[i] by {
        if i < a.len() {
            assert((a + b)[i] == a[i]);
        } else {
            assert((a + b)[i] == b[i - a.len()]);
        }
    }
}

/// The feature prefixes are plain.
proof fn lemma_feature_prefixes_plain()
    ensures
        plain_name("memory-config-"@),
        plain_name("memory-split-"@),
{
    reveal_strlit("memory-config-");
    reveal_strlit("memory-split-");
    assert forall|i: int| 0 <= i < "memory-config-"@.len() implies !is_feature_sep(#[trigger] "memory-config-"@[i])
        && ascii_lower("memory-config-"@[i]) == "memory-config-"@[i] by {
        let c = "memory-config-"@[i];
        assert(c == 'm' || c == 'e' || c == 'o' || c == 'r' || c == 'y' || c == '-' || c == 'c' || c == 'n'
            || c == 'f' || c == 'i' || c == 'g');
    }
    assert forall|i: int| 0 <= i < "memory-split-"@.len() implies !is_feature_sep(#[trigger] "memory-split-"@[i])
        && ascii_lower("memory-split-"@[i]) == "memory-split-"@[i] by {
        let c = "memory-split-"@[i];
        assert(c == 'm' || c == 'e' || c == 'o' || c == 'r' || c == 'y' || c == '-' || c == 's' || c == 'p'
            || c == 'l' || c == 'i' || c == 't');
    }
}

/// Adding a text below every text of a sorted set puts it first.
proof fn lemma_insert_text_front(t: Seq<Seq<char>>, x: Seq<char>)
    requires
        forall|k: int| 0 <= k < t.len() ==> text_lt(x, #[trigger] t[k]),
    ensures
        insert_text(t, x) == seq![x] + t,
{
    lemma_text_lt_irreflexive(x);
    assert(!t.contains(x)) by {
        if t.contains(x) {
            let k = choose|k: int| 0 <= k < t.len() && t[k] == x;
            assert(text_lt(x, t[k]));
        }
    }
    if t.len() > 0 {
        assert(crate::order::after(x, text_gt())(t[0]));
        lemma_find_first_is(t, crate::order::after(x, text_gt()), 0);
    } else {
        crate::search::lemma_find_first_none(t, crate::order::after(x, text_gt()));
    }
    assert(insert_sorted(t, x, text_gt()) =~= seq![x] + t);
}

/// The split features from position `base + j` on keep the configuration chosen so far and yield
/// the split prefixes from `j` on.
proof fn lemma_split_features(fs: Seq<Seq<char>>, base: int, splits: Seq<Seq<char>>, j: int, o: Option<Seq<char>>)
    requires
        0 <= base,
        0 <= j <= splits.len(),
        fs.len() == base + splits.len(),
        forall|k: int| 0 <= k < splits.len() ==> fs[base + k] == "memory-split-"@ + #[trigger] splits[k],
        strictly_sorted(splits),
    ensures
        features_from(fs, base + j, o) == Ok::<(Option<Seq<char>>, Seq<Seq<char>>), Seq<char>>((o, splits.skip(j))),
    decreases splits.len() - j,
{
    reveal_strlit("memory-x");
    reveal_strlit("memory-split-");
    reveal_strlit("memory-config-");
    if j == splits.len() {
        assert(splits.skip(j) =~= Seq::<Seq<char>>::empty());
    } else {
        lemma_split_features(fs, base, splits, j + 1, o);
        let p = splits[j];
        let f = fs[base + j];
        assert(f == "memory-split-"@ + p);
        assert(f != "memory-x"@) by {
            assert(f.len() >= 13);
        }
        assert(spec_strip_prefix(f, "memory-config-"@) is None) by {
            if f.len() >= 14 {
                assert(f.take(14)[7] == 's');
            }
        }
        assert(f.take(13) =~= "memory-split-"@);
        assert(f.skip(13) =~= p);
        assert(spec_strip_prefix(f, "memory-split-"@) == Some(p));
        let later = splits.skip(j + 1);
        assert forall|k: int| 0 <= k < later.len() implies text_lt(p, #[trigger] later[k]) by {
            assert(later[k] == splits[j + 1 + k]);
        }
        lemma_insert_text_front(later, p);
        assert(seq![p] + later =~= splits.skip(j));
    }
}

/// The features in the header of a variant, given back to the command, select that variant: its
/// memory configuration (none when it is the default one) and its split bank prefixes. Holds
/// where the variant has features at all, its configuration and prefix names read back unchanged
/// (no separators, no upper-case ASCII), and its prefixes are in order without repeats, as the
/// command lists them.
pub proof fn law_feature_label_selects_variant(option: Seq<char>, default: Seq<char>, splits: Seq<Seq<char>>)
    requires
        option != default || splits.len() > 0,
        option != default ==> plain_name(option),
        forall|k: int| 0 <= k < splits.len() ==> plain_name(#[trigger] splits[k]),
        strictly_sorted(splits),
    ensures
        spec_resolve_features(spec_parse_feature_list(spec_feature_label(option, default, splits)))
            == Ok::<(Option<Seq<char>>, Seq<Seq<char>>), Seq<char>>((
            if option != default {
                Some(option)
            } else {
                None
            },
            splits,
        )),
{
    reveal_strlit("memory-x");
    reveal_strlit("memory-config-");
    reveal_strlit("memory-split-");
    lemma_feature_prefixes_plain();
    let parts = label_parts(option, default, splits);
    let base: int = if option != default { 1 } else { 0 };
    let sp = splits.map_values(|p: Seq<char>| "memory-split-"@ + p);
    assert(parts.len() == base + splits.len());
    assert forall|k: int| 0 <= k < splits.len() implies parts[base + k] == "memory-split-"@ + #[trigger] splits[k] by {
        assert(parts[base + k] == sp[k]);
    }
    assert forall|i: int| 0 <= i < parts.len() implies (#[trigger] parts[i]).len() > 0 && plain_name(parts[i]) by {
        if i < base {
            assert(parts[i] == "memory-config-"@ + option);
            lemma_plain_concat("memory-config-"@, option);
        } else {
            assert(parts[i] == "memory-split-"@ + splits[i - base]);
            lemma_plain_concat("memory-split-"@, splits[i - base]);
        }
    }
    lemma_parse_joined(parts);
    assert(spec_feature_label(option, default, splits) == spec_join(parts, ", "@));
    assert(spec_parse_feature_list(spec_feature_label(option, default, splits)) == parts);
    if option != default {
        let f = parts[0];
        assert(f == "memory-config-"@ + option);
        assert(f != "memory-x"@) by {
            assert(f.len() >= 14);
        }
        assert(f.take(14) =~= "memory-config-"@);
        assert(f.skip(14) =~= option);
        assert(spec_strip_prefix(f, "memory-config-"@) == Some(option));
        lemma_split_features(parts, 1, splits, 0, Some(option));
    } else {
        lemma_split_features(parts, 0, splits, 0, None);
    }
    assert(splits.skip(0) =~= splits);
}

/// Asking the command for the features in the header of a variant renders that variant again,
/// header included. Holds where the variant has features at all, is the first configuration of
/// its name, renders, its names read back unchanged (no separators, no upper-case ASCII), and its
/// split prefixes are in order without repeats, as the command lists them.
pub proof fn law_header_features_reproduce_variant(d: ChipDump, k: int, splits: Seq<Seq<char>>)
    requires
        0 <= k < d.options@.len(),
        forall|j: int| 0 <= j < k ==> (#[trigger] d.options@[j]).name@ != d.options@[k].name@,
        d.options@[k].name@ != d.default_option@ || splits.len() > 0,
        plain_name(d.options@[k].name@),
        forall|i: int| 0 <= i < splits.len() ==> plain_name(#[trigger] splits[i]),
        strictly_sorted(splits),
        spec_variant_error(views(d.options@[k].regions@), splits) is None,
    ensures
        ({
            let o = d.options@[k];
            let label = spec_feature_label(o.name@, d.default_option@, splits);
            spec_render_chip_features(d, spec_parse_feature_list(label)) == Ok::<Seq<char>, Seq<char>>(
                spec_render_variant(views(o.regions@), splits, label),
            )
        }),
{
    let o = d.options@[k];
    let label = spec_feature_label(o.name@, d.default_option@, splits);
    law_feature_label_selects_variant(o.name@, d.default_option@, splits);
    let fs = spec_parse_feature_list(label);
    assert(selected_option(d, fs) == o.name@);
    lemma_find_first_is(d.options@, chip_option_named(o.name@), k);
}

} // verus!
