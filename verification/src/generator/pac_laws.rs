//! Laws of the adjustment of rendered register-access code: on RISC-V the interrupt table is
//! placed in the section of the RISC-V runtime, never in the Cortex-M one.
use vstd::prelude::*;

use crate::chip::Arch;
use crate::generator::pac::{arch_fixes, common_fixes, finish_pac, spec_contains_text, spec_postprocess_pac, spec_replace};

verus! {

/// The linker section of the Cortex-M interrupt table.
pub open spec fn cortex_table_section() -> Seq<char> {
    ".vector_table.interrupts"@
}

/// The linker section of the external interrupt table of the RISC-V runtime.
pub open spec fn riscv_table_section() -> Seq<char> {
    ".vector_table.external_interrupts"@
}

/// `b` and the tail of `f` after its first `j` characters disagree somewhere in their common
/// part, for every proper, non-empty tail.
pub open spec fn heads_differ(b: Seq<char>, f: Seq<char>) -> bool {
    forall|j: int| 1 <= j < f.len() ==> differ_within(b, #[trigger] f.skip(j))
}

/// `b` and `w` disagree at a position that both have.
pub open spec fn differ_within(b: Seq<char>, w: Seq<char>) -> bool {
    exists|p: int| 0 <= p < b.len() && p < w.len() && #[trigger] b[p] != w[p]
}

/// The last character of `b` is none of the characters of `f` but its last.
pub open spec fn tail_foreign(b: Seq<char>, f: Seq<char>) -> bool {
    &&& b.len() > 0
    &&& forall|q: int| 0 <= q < f.len() - 1 ==> #[trigger] f[q] != b.last()
}

/// Where a replacement's output starts with a proper tail of `f`, so does its input.
proof fn lemma_replace_keeps_head(r: Seq<char>, a: Seq<char>, b: Seq<char>, f: Seq<char>, j: int)
    requires
        a.len() > 0,
        1 <= j < f.len(),
        heads_differ(b, f),
        spec_replace(r, a, b).len() >= f.len() - j,
        spec_replace(r, a, b).take(f.len() - j) == f.skip(j),
    ensures
        r.len() >= f.len() - j,
        r.take(f.len() - j) == f.skip(j),
    decreases r.len(),
{
    let w = f.len() - j;
    let out = spec_replace(r, a, b);
    if r.len() < a.len() {
    } else if r.take(a.len() as int) == a {
        let rest = spec_replace(r.skip(a.len() as int), a, b);
        assert(out == b + rest);
        assert(differ_within(b, f.skip(j)));
        let p = choose|p: int| 0 <= p < b.len() && p < f.skip(j).len() && #[trigger] b[p] != f.skip(j)[p];
        assert(out.take(w)[p] == out[p]);
    } else {
        let tail = r.drop_first();
        let rest = spec_replace(tail, a, b);
        assert(out == seq![r[0]] + rest);
        assert(out.take(w)[0] == r[0]);
        assert(f.skip(j)[0] == f[j]);
        if w > 1 {
            assert(rest.take(w - 1) =~= out.take(w).drop_first());
            assert(f.skip(j + 1) =~= f.skip(j).drop_first());
            lemma_replace_keeps_head(tail, a, b, f, j + 1);
            assert(r.take(w) =~= seq![r[0]] + tail.take(w - 1));
        } else {
            assert(r.take(w) =~= seq![r[0]]);
        }
    }
}

/// A replacement creates no occurrence of `f`: where its output holds `f`, the input held it
/// and `f` is not what was replaced.
proof fn lemma_replace_occurrence(t: Seq<char>, a: Seq<char>, b: Seq<char>, f: Seq<char>)
    requires
        a.len() > 0,
        f.len() >= 2,
        !spec_contains_text(b, f),
        tail_foreign(b, f),
        heads_differ(b, f),
    ensures
        spec_contains_text(spec_replace(t, a, b), f) ==> (a != f && spec_contains_text(t, f)),
    decreases t.len(),
{
    let out = spec_replace(t, a, b);
    let m = f.len() as int;
    if spec_contains_text(out, f) {
        let i = choose|i: int| 0 <= i && i + f.len() <= out.len() && #[trigger] out.skip(i).take(f.len() as int) == f;
        if t.len() < a.len() {
            assert(out == t);
        } else if t.take(a.len() as int) == a {
            let tail = t.skip(a.len() as int);
            let rest = spec_replace(tail, a, b);
            assert(out == b + rest);
            if i + m <= b.len() {
                assert(b.skip(i).take(m) =~= out.skip(i).take(m));
                assert(spec_contains_text(b, f));
            } else if i >= b.len() {
                assert(rest.skip(i - b.len()).take(m) =~= out.skip(i).take(m));
                assert(spec_contains_text(rest, f));
                lemma_replace_occurrence(tail, a, b, f);
                let i2 = choose|i2: int|
                    0 <= i2 && i2 + f.len() <= tail.len() && #[trigger] tail.skip(i2).take(f.len() as int) == f;
                assert(t.skip(a.len() + i2).take(m) =~= tail.skip(i2).take(m));
            } else {
                let k = b.len() - i;
                assert(out.skip(i).take(m)[k - 1] == b.last());
            }
        } else {
            let tail = t.drop_first();
            let rest = spec_replace(tail, a, b);
            assert(out == seq![t[0]] + rest);
            if i >= 1 {
                assert(rest.skip(i - 1).take(m) =~= out.skip(i).take(m));
                assert(spec_contains_text(rest, f));
                lemma_replace_occurrence(tail, a, b, f);
                let i2 = choose|i2: int|
                    0 <= i2 && i2 + f.len() <= tail.len() && #[trigger] tail.skip(i2).take(f.len() as int) == f;
                assert(t.skip(1 + i2).take(m) =~= tail.skip(i2).take(m));
            } else {
                assert(out.skip(0) =~= out);
                assert(rest.take(m - 1) =~= out.take(m).drop_first());
                assert(f.skip(1) =~= f.drop_first());
                lemma_replace_keeps_head(tail, a, b, f, 1);
                assert(out.take(m)[0] == t[0]);
                assert(t.take(m) =~= seq![t[0]] + tail.take(m - 1));
                assert(t.skip(0) =~= t);
                assert(t.skip(0).take(m) == f);
            }
        }
    }
}

/// `a` does not hold the first character of `w`.
pub open spec fn first_foreign(a: Seq<char>, w: Seq<char>) -> bool {
    &&& w.len() > 0
    &&& forall|q: int| 0 <= q < a.len() ==> #[trigger] a[q] != w[0]
}

/// Where the input of a replacement starts with a tail of `w` that no occurrence of `a` can
/// start inside of, so does its output.
proof fn lemma_replace_passes_head(r: Seq<char>, a: Seq<char>, b: Seq<char>, w: Seq<char>, j: int)
    requires
        a.len() > 0,
        1 <= j < w.len(),
        heads_differ(a, w),
        r.len() >= w.len() - j,
        r.take(w.len() - j) == w.skip(j),
    ensures
        spec_replace(r, a, b).len() >= w.len() - j,
        spec_replace(r, a, b).take(w.len() - j) == w.skip(j),
    decreases r.len(),
{
    let n = w.len() - j;
    let out = spec_replace(r, a, b);
    if r.len() < a.len() {
    } else if r.take(a.len() as int) == a {
        assert(differ_within(a, w.skip(j)));
        let p = choose|p: int| 0 <= p < a.len() && p < w.skip(j).len() && #[trigger] a[p] != w.skip(j)[p];
        assert(r.take(a.len() as int)[p] == r.take(n)[p]);
    } else {
        let tail = r.drop_first();
        let rest = spec_replace(tail, a, b);
        assert(out == seq![r[0]] + rest);
        assert(r.take(n)[0] == w.skip(j)[0]);
        if n > 1 {
            assert(tail.take(n - 1) =~= r.take(n).drop_first());
            assert(w.skip(j + 1) =~= w.skip(j).drop_first());
            lemma_replace_passes_head(tail, a, b, w, j + 1);
            assert(out.take(n) =~= seq![r[0]] + rest.take(n - 1));
        } else {
            assert(out.take(n) =~= seq![r[0]]);
        }
    }
}

/// A replacement keeps an occurrence of `w` that no occurrence of `a` can overlap.
proof fn lemma_replace_keeps(t: Seq<char>, a: Seq<char>, b: Seq<char>, w: Seq<char>)
    requires
        a.len() > 0,
        first_foreign(a, w),
        heads_differ(a, w),
        spec_contains_text(t, w),
    ensures
        spec_contains_text(spec_replace(t, a, b), w),
    decreases t.len(),
{
    let out = spec_replace(t, a, b);
    let m = w.len() as int;
    let i = choose|i: int| 0 <= i && i + w.len() <= t.len() && #[trigger] t.skip(i).take(w.len() as int) == w;
    if t.len() < a.len() {
        assert(out == t);
        assert(out.skip(i).take(m) == w);
    } else if t.take(a.len() as int) == a {
        let tail = t.skip(a.len() as int);
        let rest = spec_replace(tail, a, b);
        assert(out == b + rest);
        if i < a.len() {
            assert(t.skip(i).take(m)[0] == t[i]);
            assert(t.take(a.len() as int)[i] == t[i]);
        } else {
            assert(tail.skip(i - a.len()).take(m) =~= t.skip(i).take(m));
            lemma_replace_keeps(tail, a, b, w);
            let i2 = choose|i2: int|
                0 <= i2 && i2 + w.len() <= rest.len() && #[trigger] rest.skip(i2).take(w.len() as int) == w;
            assert(out.skip(b.len() + i2).take(m) =~= rest.skip(i2).take(m));
        }
    } else {
        let tail = t.drop_first();
        let rest = spec_replace(tail, a, b);
        assert(out == seq![t[0]] + rest);
        if i >= 1 {
            assert(tail.skip(i - 1).take(m) =~= t.skip(i).take(m));
            lemma_replace_keeps(tail, a, b, w);
            let i2 = choose|i2: int|
                0 <= i2 && i2 + w.len() <= rest.len() && #[trigger] rest.skip(i2).take(w.len() as int) == w;
            assert(out.skip(1 + i2).take(m) =~= rest.skip(i2).take(m));
        } else {
            assert(t.skip(0) =~= t);
            assert(t.take(m)[0] == w[0]);
            if m > 1 {
                assert(tail.take(m - 1) =~= t.take(m).drop_first());
                assert(w.skip(1) =~= w.drop_first());
                lemma_replace_passes_head(tail, a, b, w, 1);
                assert(out.take(m) =~= seq![t[0]] + rest.take(m - 1));
                assert(out.take(m) =~= w);
            } else {
                assert(out.take(m) =~= seq![t[0]]);
                assert(out.take(m) =~= w);
            }
            assert(out.skip(0) =~= out);
            assert(out.skip(0).take(m) == w);
        }
    }
}

/// Where the input holds `a`, the output of replacing `a` by `b` holds `b`: the leftmost
/// occurrence is always replaced.
proof fn lemma_replace_produces(t: Seq<char>, a: Seq<char>, b: Seq<char>)
    requires
        a.len() > 0,
        spec_contains_text(t, a),
    ensures
        spec_contains_text(spec_replace(t, a, b), b),
    decreases t.len(),
{
    let out = spec_replace(t, a, b);
    let i = choose|i: int| 0 <= i && i + a.len() <= t.len() && #[trigger] t.skip(i).take(a.len() as int) == a;
    if t.take(a.len() as int) == a {
        let rest = spec_replace(t.skip(a.len() as int), a, b);
        assert(out == b + rest);
        assert(out.skip(0).take(b.len() as int) =~= b);
    } else {
        let tail = t.drop_first();
        let rest = spec_replace(tail, a, b);
        assert(out == seq![t[0]] + rest);
        if i == 0 {
            assert(t.skip(0) =~= t);
        }
        assert(tail.skip(i - 1).take(a.len() as int) =~= t.skip(i).take(a.len() as int));
        lemma_replace_produces(tail, a, b);
        let i2 = choose|i2: int|
            0 <= i2 && i2 + b.len() <= rest.len() && #[trigger] rest.skip(i2).take(b.len() as int) == b;
        assert(out.skip(1 + i2).take(b.len() as int) =~= rest.skip(i2).take(b.len() as int));
    }
}

/// The facts about the new section and table names that the RISC-V renaming rests on: neither
/// holds, ends in or starts with a piece of the Cortex-M section name.
proof fn lemma_section_names()
    ensures
        !spec_contains_text(riscv_table_section(), cortex_table_section()),
        tail_foreign(riscv_table_section(), cortex_table_section()),
        heads_differ(riscv_table_section(), cortex_table_section()),
        !spec_contains_text("__EXTERNAL_INTERRUPTS"@, cortex_table_section()),
        tail_foreign("__EXTERNAL_INTERRUPTS"@, cortex_table_section()),
        heads_differ("__EXTERNAL_INTERRUPTS"@, cortex_table_section()),
        cortex_table_section().len() == 24,
        "__INTERRUPTS"@.len() > 0,
{
    reveal_strlit(".vector_table.interrupts");
    reveal_strlit(".vector_table.external_interrupts");
    reveal_strlit("__EXTERNAL_INTERRUPTS");
    reveal_strlit("__INTERRUPTS");
    let f = cortex_table_section();
    let g = riscv_table_section();
    let e = "__EXTERNAL_INTERRUPTS"@;
    assert(f.len() == 24 && g.len() == 33 && e.len() == 21);
    assert forall|i: int| 0 <= i && i + f.len() <= g.len() implies #[trigger] g.skip(i).take(f.len() as int) != f by {
        assert(i == 0 || i == 1 || i == 2 || i == 3 || i == 4 || i == 5 || i == 6 || i == 7 || i == 8
            || i == 9);
        if i == 0 {
            assert(g.skip(i).take(24)[14] != f[14]);
        } else {
            assert(g.skip(i).take(24)[0] != f[0]);
        }
    }
    assert forall|q: int| 0 <= q < f.len() - 1 implies #[trigger] f[q] != g.last() && f[q] != e.last() by {
        assert(q == 0 || q == 1 || q == 2 || q == 3 || q == 4 || q == 5 || q == 6 || q == 7 || q == 8
            || q == 9 || q == 10 || q == 11 || q == 12 || q == 13 || q == 14 || q == 15 || q == 16
            || q == 17 || q == 18 || q == 19 || q == 20 || q == 21 || q == 22);
    }
    assert forall|j: int| 1 <= j < f.len() implies differ_within(g, #[trigger] f.skip(j))
        && differ_within(e, f.skip(j)) by {
        assert(j == 1 || j == 2 || j == 3 || j == 4 || j == 5 || j == 6 || j == 7 || j == 8 || j == 9
            || j == 10 || j == 11 || j == 12 || j == 13 || j == 14 || j == 15 || j == 16 || j == 17
            || j == 18 || j == 19 || j == 20 || j == 21 || j == 22 || j == 23);
        if j == 13 {
            assert(g[1] != f.skip(j)[1]);
        } else {
            assert(g[0] != f.skip(j)[0]);
        }
        if j == 7 {
            assert(e[1] != f.skip(j)[1]);
        } else {
            assert(e[0] != f.skip(j)[0]);
        }
    }
}

/// The facts about the texts that the adjustment replaces that keep the section names in place:
/// none holds the first character of a section name, and none can start inside one.
proof fn lemma_replaced_texts_spare_sections()
    ensures
        first_foreign("] "@, cortex_table_section()),
        heads_differ("] "@, cortex_table_section()),
        "] "@.len() > 0,
        first_foreign("pub use cortex_m_rt :: interrupt ;"@, cortex_table_section()),
        heads_differ("pub use cortex_m_rt :: interrupt ;"@, cortex_table_section()),
        "pub use cortex_m_rt :: interrupt ;"@.len() > 0,
        first_foreign("cortex_m :: interrupt "@, cortex_table_section()),
        heads_differ("cortex_m :: interrupt "@, cortex_table_section()),
        "cortex_m :: interrupt "@.len() > 0,
        first_foreign("__INTERRUPTS"@, riscv_table_section()),
        heads_differ("__INTERRUPTS"@, riscv_table_section()),
        "__INTERRUPTS"@.len() > 0,
{
    reveal_strlit(".vector_table.interrupts");
    reveal_strlit(".vector_table.external_interrupts");
    reveal_strlit("] ");
    reveal_strlit("pub use cortex_m_rt :: interrupt ;");
    reveal_strlit("cortex_m :: interrupt ");
    reveal_strlit("__INTERRUPTS");
    let f = cortex_table_section();
    let g = riscv_table_section();
    assert(f.len() == 24 && g.len() == 33);
    let a0 = "] "@;
    assert(a0.len() == 2);
    assert forall|q: int| 0 <= q < a0.len() implies #[trigger] a0[q] != f[0] by {
        assert(q == 0 || q == 1);
    }
    assert forall|j: int| 1 <= j < f.len() implies differ_within(a0, #[trigger] f.skip(j)) by {
        assert(j == 1 || j == 2 || j == 3 || j == 4 || j == 5 || j == 6 || j == 7 || j == 8 || j == 9 || j == 10 || j == 11 || j == 12 || j == 13 || j == 14 || j == 15 || j == 16 || j == 17 || j == 18 || j == 19 || j == 20 || j == 21 || j == 22 || j == 23);
        assert(a0[0] != f.skip(j)[0]);
    }
    let a1 = "pub use cortex_m_rt :: interrupt ;"@;
    assert(a1.len() == 34);
    assert forall|q: int| 0 <= q < a1.len() implies #[trigger] a1[q] != f[0] by {
        assert(q == 0 || q == 1 || q == 2 || q == 3 || q == 4 || q == 5 || q == 6 || q == 7 || q == 8 || q == 9 || q == 10 || q == 11 || q == 12 || q == 13 || q == 14 || q == 15 || q == 16 || q == 17 || q == 18 || q == 19 || q == 20 || q == 21 || q == 22 || q == 23 || q == 24 || q == 25 || q == 26 || q == 27 || q == 28 || q == 29 || q == 30 || q == 31 || q == 32 || q == 33);
    }
    assert forall|j: int| 1 <= j < f.len() implies differ_within(a1, #[trigger] f.skip(j)) by {
        assert(j == 1 || j == 2 || j == 3 || j == 4 || j == 5 || j == 6 || j == 7 || j == 8 || j == 9 || j == 10 || j == 11 || j == 12 || j == 13 || j == 14 || j == 15 || j == 16 || j == 17 || j == 18 || j == 19 || j == 20 || j == 21 || j == 22 || j == 23);
        if j == 21 {
            assert(a1[1] != f.skip(j)[1]);
        } else {
            assert(a1[0] != f.skip(j)[0]);
        }
    }
    let a2 = "cortex_m :: interrupt "@;
    assert(a2.len() == 22);
    assert forall|q: int| 0 <= q < a2.len() implies #[trigger] a2[q] != f[0] by {
        assert(q == 0 || q == 1 || q == 2 || q == 3 || q == 4 || q == 5 || q == 6 || q == 7 || q == 8 || q == 9 || q == 10 || q == 11 || q == 12 || q == 13 || q == 14 || q == 15 || q == 16 || q == 17 || q == 18 || q == 19 || q == 20 || q == 21);
    }
    assert forall|j: int| 1 <= j < f.len() implies differ_within(a2, #[trigger] f.skip(j)) by {
        assert(j == 1 || j == 2 || j == 3 || j == 4 || j == 5 || j == 6 || j == 7 || j == 8 || j == 9 || j == 10 || j == 11 || j == 12 || j == 13 || j == 14 || j == 15 || j == 16 || j == 17 || j == 18 || j == 19 || j == 20 || j == 21 || j == 22 || j == 23);
        if j == 3 {
            assert(a2[1] != f.skip(j)[1]);
        } else {
            assert(a2[0] != f.skip(j)[0]);
        }
    }
    let a3 = "__INTERRUPTS"@;
    assert(a3.len() == 12);
    assert forall|q: int| 0 <= q < a3.len() implies #[trigger] a3[q] != g[0] by {
        assert(q == 0 || q == 1 || q == 2 || q == 3 || q == 4 || q == 5 || q == 6 || q == 7 || q == 8 || q == 9 || q == 10 || q == 11);
    }
    assert forall|j: int| 1 <= j < g.len() implies differ_within(a3, #[trigger] g.skip(j)) by {
        assert(j == 1 || j == 2 || j == 3 || j == 4 || j == 5 || j == 6 || j == 7 || j == 8 || j == 9 || j == 10 || j == 11 || j == 12 || j == 13 || j == 14 || j == 15 || j == 16 || j == 17 || j == 18 || j == 19 || j == 20 || j == 21 || j == 22 || j == 23 || j == 24 || j == 25 || j == 26 || j == 27 || j == 28 || j == 29 || j == 30 || j == 31 || j == 32);
        if j == 7 || j == 22 {
            assert(a3[1] != g.skip(j)[1]);
        } else {
            assert(a3[0] != g.skip(j)[0]);
        }
    }
}

/// The facts about the interrupt-table names that the renaming rests on: the new name neither
/// holds, nor ends in, nor starts with a piece of the old one.
proof fn lemma_table_names()
    ensures
        !spec_contains_text("__EXTERNAL_INTERRUPTS"@, "__INTERRUPTS"@),
        tail_foreign("__EXTERNAL_INTERRUPTS"@, "__INTERRUPTS"@),
        heads_differ("__EXTERNAL_INTERRUPTS"@, "__INTERRUPTS"@),
        "__INTERRUPTS"@.len() == 12,
{
    reveal_strlit("__EXTERNAL_INTERRUPTS");
    reveal_strlit("__INTERRUPTS");
    let f = "__INTERRUPTS"@;
    let b = "__EXTERNAL_INTERRUPTS"@;
    assert(f.len() == 12 && b.len() == 21);
    assert forall|i: int| 0 <= i && i + f.len() <= b.len() implies #[trigger] b.skip(i).take(f.len() as int) != f by {
        assert(i == 0 || i == 1 || i == 2 || i == 3 || i == 4 || i == 5 || i == 6 || i == 7 || i == 8
            || i == 9);
        if i == 0 {
            assert(b.skip(i).take(12)[2] != f[2]);
        } else {
            assert(b.skip(i).take(12)[0] != f[0] || b.skip(i).take(12)[1] != f[1]);
        }
    }
    assert forall|q: int| 0 <= q < f.len() - 1 implies #[trigger] f[q] != b.last() by {
        assert(q == 0 || q == 1 || q == 2 || q == 3 || q == 4 || q == 5 || q == 6 || q == 7 || q == 8
            || q == 9 || q == 10);
    }
    assert forall|j: int| 1 <= j < f.len() implies differ_within(b, #[trigger] f.skip(j)) by {
        assert(j == 1 || j == 2 || j == 3 || j == 4 || j == 5 || j == 6 || j == 7 || j == 8 || j == 9
            || j == 10 || j == 11);
        if j == 1 {
            assert(b[1] != f.skip(j)[1]);
        } else {
            assert(b[0] != f.skip(j)[0]);
        }
    }
}

/// On RISC-V the interrupt table goes to the section of the RISC-V runtime: the adjusted code is
/// finished from a text that holds no occurrence of the Cortex-M section `.vector_table.interrupts`
/// and none of the Cortex-M table name `__INTERRUPTS`, and that names
/// `.vector_table.external_interrupts` wherever the input named the Cortex-M section.
pub proof fn law_riscv_table_section(s: Seq<char>)
    ensures
        arch_fixes(common_fixes(s), Arch::Riscv) matches Some(e) && {
            &&& !spec_contains_text(e, cortex_table_section())
            &&& !spec_contains_text(e, "__INTERRUPTS"@)
            &&& spec_contains_text(s, cortex_table_section()) ==> spec_contains_text(e, riscv_table_section())
            &&& spec_postprocess_pac(s, Arch::Riscv) == finish_pac(e)
        },
{
    lemma_section_names();
    lemma_replaced_texts_spare_sections();
    reveal_strlit("cortex_m :: interrupt ");
    let f = cortex_table_section();
    let g = riscv_table_section();
    let c1 = spec_replace(s, "] "@, "]\n"@);
    let c2 = spec_replace(c1, "pub use cortex_m_rt :: interrupt ;"@, ""@);
    let d1 = spec_replace(c2, "cortex_m :: interrupt "@, "crate "@);
    let d2 = spec_replace(d1, f, g);
    let e = spec_replace(d2, "__INTERRUPTS"@, "__EXTERNAL_INTERRUPTS"@);
    assert(common_fixes(s) == c2);
    assert(arch_fixes(c2, Arch::Riscv) == Some(e));
    lemma_replace_occurrence(d1, f, g, f);
    lemma_replace_occurrence(d2, "__INTERRUPTS"@, "__EXTERNAL_INTERRUPTS"@, f);
    lemma_table_names();
    lemma_replace_occurrence(d2, "__INTERRUPTS"@, "__EXTERNAL_INTERRUPTS"@, "__INTERRUPTS"@);
    if spec_contains_text(s, f) {
        lemma_replace_keeps(s, "] "@, "]\n"@, f);
        lemma_replace_keeps(c1, "pub use cortex_m_rt :: interrupt ;"@, ""@, f);
        lemma_replace_keeps(c2, "cortex_m :: interrupt "@, "crate "@, f);
        lemma_replace_produces(d1, f, g);
        lemma_replace_keeps(d2, "__INTERRUPTS"@, "__EXTERNAL_INTERRUPTS"@, g);
    }
}

} // verus!
