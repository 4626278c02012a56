//! What the files and the summary of an import hold.
use vstd::prelude::*;

use crate::migrate::colors::color_text;
use crate::migrate::colors::color_text_reads_back;
use crate::migrate::colors::parsed_color;
use crate::migrate::colors::Color;
use crate::migrate::colors::SemanticSlots;
use crate::migrate::import::BindingModel;
use crate::migrate::import::ImportModel;
use crate::migrate::render::binding_lines;
use crate::migrate::render::bound_lines;
use crate::migrate::render::color_line;
use crate::migrate::render::context_table;
use crate::migrate::render::framed_lines;
use crate::migrate::render::has_context;
use crate::migrate::render::keymap_toml;
use crate::migrate::render::mapped_lines;
use crate::migrate::render::summary;
use crate::migrate::render::theme_toml;
use crate::text::debug_quoted;

verus! {

/// The text holds the part.
pub open spec fn holds(text: Seq<char>, part: Seq<char>) -> bool {
    exists|a: Seq<char>, b: Seq<char>| text == #[trigger] (a + part + b)
}

proof fn lemma_holds_within(before: Seq<char>, text: Seq<char>, after: Seq<char>, part: Seq<char>)
    requires
        holds(text, part),
    ensures
        holds(before + text + after, part),
{
    let (a, b) = choose|a: Seq<char>, b: Seq<char>| text == #[trigger] (a + part + b);
    assert(before + text + after =~= (before + a) + part + (b + after));
}

proof fn lemma_holds_itself(text: Seq<char>)
    ensures
        holds(text, text),
{
    assert(text =~= Seq::<char>::empty() + text + Seq::<char>::empty());
}

proof fn lemma_left(a: Seq<char>, b: Seq<char>, part: Seq<char>)
    requires
        holds(a, part),
    ensures
        holds(a + b, part),
{
    lemma_holds_within(Seq::empty(), a, b, part);
    assert(Seq::<char>::empty() + a + b =~= a + b);
}

proof fn lemma_right(a: Seq<char>, b: Seq<char>, part: Seq<char>)
    requires
        holds(b, part),
    ensures
        holds(a + b, part),
{
    lemma_holds_within(a, b, Seq::empty(), part);
    assert(a + b + Seq::<char>::empty() =~= a + b);
}

proof fn lemma_left3(a: Seq<char>, b: Seq<char>, c: Seq<char>, d: Seq<char>, part: Seq<char>)
    requires
        holds(a, part),
    ensures
        holds(a + b + c + d, part),
{
    lemma_left(a, b, part);
    lemma_left(a + b, c, part);
    lemma_left(a + b + c, d, part);
}

/// The colours of a theme with the keys they are written under.
pub open spec fn named_colors(slots: SemanticSlots) -> Seq<(Seq<char>, Option<Color>)> {
    seq![
        ("bg"@, slots.bg),
        ("fg"@, slots.fg),
        ("accent"@, slots.accent),
        ("link"@, slots.link),
        ("link_visited"@, slots.link_visited),
        ("heading"@, slots.heading),
        ("quote"@, slots.quote),
        ("code_bg"@, slots.code),
        ("match"@, slots.match_fg),
        ("warning"@, slots.warning),
        ("error"@, slots.error),
        ("dim"@, slots.dim),
    ]
}

/// The lines of the first `n` colours behind a text.
spec fn color_lines(head: Seq<char>, pairs: Seq<(Seq<char>, Option<Color>)>, n: int) -> Seq<char>
    decreases n,
{
    if n <= 0 {
        head
    } else {
        color_lines(head, pairs, n - 1) + color_line(pairs[n - 1].0, pairs[n - 1].1)
    }
}

proof fn lemma_color_lines(
    head: Seq<char>,
    pairs: Seq<(Seq<char>, Option<Color>)>,
    n: int,
    i: int,
)
    requires
        0 <= i < n <= pairs.len(),
    ensures
        holds(color_lines(head, pairs, n), color_line(pairs[i].0, pairs[i].1)),
    decreases n,
{
    let before = color_lines(head, pairs, n - 1);
    let last = color_line(pairs[n - 1].0, pairs[n - 1].1);
    if i == n - 1 {
        lemma_holds_itself(last);
        lemma_right(before, last, last);
    } else {
        lemma_color_lines(head, pairs, n - 1, i);
        lemma_left(before, last, color_line(pairs[i].0, pairs[i].1));
    }
}

#[verifier::spinoff_prover]
#[verifier::rlimit(40)]
proof fn lemma_theme_lines(name: Seq<char>, slots: SemanticSlots) -> (head: Seq<char>)
    ensures
        theme_toml(name, slots) == color_lines(head, named_colors(slots), 12),
{
    let pairs = named_colors(slots);
    let head =
        "# Imported from a wiki-tui config (PRD FR-TH-8).\n# Review the colors below — derived slots are filled in automatically\n# when this file loads (see the [colors] schema in the wikitui docs).\n[meta]\nname = \""@
        + name + "\"\n\n[colors]\n"@;
    reveal_with_fuel(color_lines, 13);
    head
}

/// A theme file holds every colour that is set, under its own key, as a text
/// that reads back as the colour.
pub proof fn a_theme_file_holds_every_color(name: Seq<char>, slots: SemanticSlots, i: int) -> (text:
    Seq<char>)
    requires
        0 <= i < 12,
        named_colors(slots)[i].1 is Some,
    ensures
        parsed_color(text) == named_colors(slots)[i].1,
        holds(theme_toml(name, slots), named_colors(slots)[i].0 + " = \""@ + text + "\"\n"@),
{
    let pairs = named_colors(slots);
    let c = pairs[i].1->0;
    color_text_reads_back(c);
    let head = lemma_theme_lines(name, slots);
    lemma_color_lines(head, pairs, 12, i);
    color_text(c)
}

/// A context that bindings can stand in.
pub open spec fn is_written(ctx: Seq<char>) -> bool {
    ctx == "global"@ || ctx == "reading"@ || ctx == "startpage"@ || ctx == "picker"@ || ctx
        == "search"@
}

proof fn lemma_binding_lines(bindings: Seq<BindingModel>, ctx: Seq<char>, i: int)
    requires
        0 <= i < bindings.len(),
        bindings[i].context == ctx,
    ensures
        holds(
            binding_lines(bindings, ctx),
            debug_quoted(bindings[i].key) + " = "@ + debug_quoted(bindings[i].action_name) + "\n"@,
        ),
    decreases bindings.len(),
{
    let front = bindings.drop_last();
    let before = binding_lines(front, ctx);
    let all = binding_lines(bindings, ctx);
    let none = Seq::<char>::empty();
    let part = debug_quoted(bindings[i].key) + " = "@ + debug_quoted(bindings[i].action_name)
        + "\n"@;
    if i == bindings.len() - 1 {
        assert(all =~= before + part + none);
    } else {
        assert(front[i] == bindings[i]);
        lemma_binding_lines(front, ctx, i);
        let b = bindings.last();
        let last = if b.context == ctx {
            debug_quoted(b.key) + " = "@ + debug_quoted(b.action_name) + "\n"@
        } else {
            none
        };
        lemma_holds_within(none, before, last, part);
        assert(none + before + last =~= all);
    }
}

/// A keymap file has, for each binding, the table of its context, and in it
/// the key and the command's name.
pub proof fn a_keymap_file_holds_every_binding(bindings: Seq<BindingModel>, i: int)
    requires
        0 <= i < bindings.len(),
        is_written(bindings[i].context),
    ensures
        ({
            let ctx = bindings[i].context;
            let lines = binding_lines(bindings, ctx);
            &&& holds(keymap_toml(bindings), "\n["@ + ctx + "]\n"@ + lines)
            &&& holds(
                lines,
                debug_quoted(bindings[i].key) + " = "@ + debug_quoted(bindings[i].action_name)
                    + "\n"@,
            )
        }),
{
    let ctx = bindings[i].context;
    assert(has_context(bindings, ctx));
    lemma_binding_lines(bindings, ctx, i);
    let head =
        "# Imported from a wiki-tui config (PRD FR-TH-8).\n# Unmapped wiki-tui bindings are listed in the import summary, not here.\n"@;
    let s1 = context_table(bindings, "global"@);
    let s2 = context_table(bindings, "reading"@);
    let s3 = context_table(bindings, "startpage"@);
    let s4 = context_table(bindings, "picker"@);
    let s5 = context_table(bindings, "search"@);
    let table = "\n["@ + ctx + "]\n"@ + binding_lines(bindings, ctx);
    assert(context_table(bindings, ctx) == table);
    lemma_holds_itself(table);
    if ctx == "global"@ {
        lemma_right(head, s1, table);
        lemma_left(head + s1, s2, table);
        lemma_left3(head + s1 + s2, s3, s4, s5, table);
    } else if ctx == "reading"@ {
        lemma_right(head + s1, s2, table);
        lemma_left3(head + s1 + s2, s3, s4, s5, table);
    } else if ctx == "startpage"@ {
        lemma_right(head + s1 + s2, s3, table);
        lemma_left(head + s1 + s2 + s3, s4, table);
        lemma_left(head + s1 + s2 + s3 + s4, s5, table);
    } else if ctx == "picker"@ {
        lemma_right(head + s1 + s2 + s3, s4, table);
        lemma_left(head + s1 + s2 + s3 + s4, s5, table);
    } else {
        lemma_right(head + s1 + s2 + s3 + s4, s5, table);
    }
}

proof fn lemma_mapped(mapped: Seq<(Seq<char>, Seq<char>)>, i: int)
    requires
        0 <= i < mapped.len(),
    ensures
        holds(mapped_lines(mapped), mapped[i].1 + " -> "@ + mapped[i].0 + "\n"@),
    decreases mapped.len(),
{
    let front = mapped.drop_last();
    let before = mapped_lines(front);
    let none = Seq::<char>::empty();
    let part = mapped[i].1 + " -> "@ + mapped[i].0 + "\n"@;
    if i == mapped.len() - 1 {
        assert(mapped_lines(mapped) =~= (before + "  [theme] "@) + part + none);
    } else {
        assert(front[i] == mapped[i]);
        lemma_mapped(front, i);
        let last = "  [theme] "@ + mapped.last().1 + " -> "@ + mapped.last().0 + "\n"@;
        lemma_holds_within(none, before, last, part);
        assert(none + before + last =~= mapped_lines(mapped));
    }
}

proof fn lemma_framed(head: Seq<char>, list: Seq<Seq<char>>, tail: Seq<char>, i: int)
    requires
        0 <= i < list.len(),
    ensures
        holds(framed_lines(head, list, tail), head + list[i] + tail),
    decreases list.len(),
{
    let front = list.drop_last();
    let before = framed_lines(head, front, tail);
    let none = Seq::<char>::empty();
    let part = head + list[i] + tail;
    if i == list.len() - 1 {
        assert(framed_lines(head, list, tail) =~= before + part + none);
    } else {
        assert(front[i] == list[i]);
        lemma_framed(head, front, tail, i);
        let last = head + list.last() + tail;
        lemma_holds_within(none, before, last, part);
        assert(none + before + last =~= framed_lines(head, list, tail));
    }
}

proof fn lemma_bound(bindings: Seq<BindingModel>, i: int)
    requires
        0 <= i < bindings.len(),
    ensures
        holds(
            bound_lines(bindings),
            bindings[i].from_wikitui_key + " = "@ + debug_quoted(bindings[i].key) + " -> "@
                + bindings[i].action_name + " ("@ + bindings[i].context + ")\n"@,
        ),
    decreases bindings.len(),
{
    let front = bindings.drop_last();
    let before = bound_lines(front);
    let none = Seq::<char>::empty();
    let part = bindings[i].from_wikitui_key + " = "@ + debug_quoted(bindings[i].key) + " -> "@
        + bindings[i].action_name + " ("@ + bindings[i].context + ")\n"@;
    if i == bindings.len() - 1 {
        assert(bound_lines(bindings) =~= (before + "  [keybindings] "@) + part + none);
    } else {
        assert(front[i] == bindings[i]);
        lemma_bound(front, i);
        let b = bindings.last();
        let last = "  [keybindings] "@ + b.from_wikitui_key + " = "@ + debug_quoted(b.key)
            + " -> "@ + b.action_name + " ("@ + b.context + ")\n"@;
        lemma_holds_within(none, before, last, part);
        assert(none + before + last =~= bound_lines(bindings));
    }
}

/// The summary tells everything: each colour and key that was brought over
/// with where it went, each that was not recognized, each text that is no
/// key, the files, and the command that tries the theme.
#[verifier::spinoff_prover]
#[verifier::rlimit(40)]
pub proof fn the_summary_tells_everything(
    m: ImportModel,
    theme_path: Seq<char>,
    keymap_path: Seq<char>,
    renamed: bool,
)
    ensures
        ({
            let text = summary(m, theme_path, keymap_path, renamed);
            &&& forall|i: int|
                0 <= i < m.theme_mapped.len() ==> holds(
                    text,
                    (#[trigger] m.theme_mapped[i]).1 + " -> "@ + m.theme_mapped[i].0 + "\n"@,
                )
            &&& forall|i: int|
                0 <= i < m.theme_unmapped.len() ==> holds(
                    text,
                    "  [theme] "@ + (#[trigger] m.theme_unmapped[i])
                        + ": not recognized — not imported (derive manually if needed)\n"@,
                )
            &&& forall|i: int|
                0 <= i < m.keymap_bindings.len() ==> holds(
                    text,
                    (#[trigger] m.keymap_bindings[i]).from_wikitui_key + " = "@ + debug_quoted(
                        m.keymap_bindings[i].key,
                    ) + " -> "@ + m.keymap_bindings[i].action_name + " ("@
                        + m.keymap_bindings[i].context + ")\n"@,
                )
            &&& forall|i: int|
                0 <= i < m.keymap_unmapped.len() ==> holds(
                    text,
                    "  [keybindings] "@ + (#[trigger] m.keymap_unmapped[i])
                        + ": not recognized — not imported\n"@,
                )
            &&& forall|i: int|
                0 <= i < m.keymap_bad_keys.len() ==> holds(
                    text,
                    "  [keybindings] "@ + (#[trigger] m.keymap_bad_keys[i])
                        + " — not imported\n"@,
                )
            &&& holds(text, "Imported theme -> "@ + theme_path)
            &&& holds(text, "Imported keymap -> "@ + keymap_path)
            &&& holds(text, "`:theme "@ + m.theme_name + "`"@)
        }),
{
    let text = summary(m, theme_path, keymap_path, renamed);
    let u1 = ": not recognized — not imported (derive manually if needed)\n"@;
    let u2 = ": not recognized — not imported\n"@;
    let u3 = " — not imported\n"@;
    let p1 = "Imported theme -> "@ + theme_path;
    let p3 = mapped_lines(m.theme_mapped);
    let p4 = framed_lines("  [theme] "@, m.theme_unmapped, u1);
    let p6 = if renamed {
        " (keymap.toml already existed — merge by hand)\n"@
    } else {
        "\n"@
    };
    let p7 = bound_lines(m.keymap_bindings);
    let p8 = framed_lines("  [keybindings] "@, m.keymap_unmapped, u2);
    let p9 = framed_lines("  [keybindings] "@, m.keymap_bad_keys, u3);
    let run = "\nRun `:theme "@;
    let end = "` to try it; `wikitui config doctor` re-checks its contrast.\n"@;
    let s2 = p1 + "\n"@;
    let s3 = s2 + p3;
    let s4 = s3 + p4;
    let s5 = s4 + "Imported keymap -> "@;
    let s6 = s5 + keymap_path;
    let s7 = s6 + p6;
    let s8 = s7 + p7;
    let s9 = s8 + p8;
    let s10 = s9 + p9;
    let s11 = s10 + run;
    let s12 = s11 + m.theme_name;
    assert(text == s12 + end);
    lemma_holds_itself(p1);
    lemma_left3(p1, "\n"@, p3, p4, p1);
    lemma_left3(s4, "Imported keymap -> "@, keymap_path, p6, p1);
    lemma_summary_end(s7, p7, p8, p9, run, m.theme_name, end, p1);
    let k = "Imported keymap -> "@ + keymap_path;
    assert(s6 =~= s4 + k);
    lemma_holds_itself(k);
    lemma_right(s4, k, k);
    lemma_left(s6, p6, k);
    lemma_summary_end(s7, p7, p8, p9, run, m.theme_name, end, k);
    assert forall|i: int| 0 <= i < m.theme_mapped.len() implies holds(
        text,
        (#[trigger] m.theme_mapped[i]).1 + " -> "@ + m.theme_mapped[i].0 + "\n"@,
    ) by {
        let part = m.theme_mapped[i].1 + " -> "@ + m.theme_mapped[i].0 + "\n"@;
        lemma_mapped(m.theme_mapped, i);
        lemma_right(s2, p3, part);
        lemma_left(s3, p4, part);
        lemma_left3(s4, "Imported keymap -> "@, keymap_path, p6, part);
        lemma_summary_end(s7, p7, p8, p9, run, m.theme_name, end, part);
    }
    assert forall|i: int| 0 <= i < m.theme_unmapped.len() implies holds(
        text,
        "  [theme] "@ + (#[trigger] m.theme_unmapped[i])
            + ": not recognized — not imported (derive manually if needed)\n"@,
    ) by {
        let part = "  [theme] "@ + m.theme_unmapped[i] + u1;
        lemma_framed("  [theme] "@, m.theme_unmapped, u1, i);
        lemma_right(s3, p4, part);
        lemma_left3(s4, "Imported keymap -> "@, keymap_path, p6, part);
        lemma_summary_end(s7, p7, p8, p9, run, m.theme_name, end, part);
    }
    assert forall|i: int| 0 <= i < m.keymap_bindings.len() implies holds(
        text,
        (#[trigger] m.keymap_bindings[i]).from_wikitui_key + " = "@ + debug_quoted(
            m.keymap_bindings[i].key,
        ) + " -> "@ + m.keymap_bindings[i].action_name + " ("@ + m.keymap_bindings[i].context
            + ")\n"@,
    ) by {
        let b = m.keymap_bindings[i];
        let part = b.from_wikitui_key + " = "@ + debug_quoted(b.key) + " -> "@ + b.action_name
            + " ("@ + b.context + ")\n"@;
        lemma_bound(m.keymap_bindings, i);
        lemma_right(s7, p7, part);
        lemma_left3(s8, p8, p9, run, part);
        lemma_left(s11, m.theme_name, part);
        lemma_left(s12, end, part);
    }
    assert forall|i: int| 0 <= i < m.keymap_unmapped.len() implies holds(
        text,
        "  [keybindings] "@ + (#[trigger] m.keymap_unmapped[i])
            + ": not recognized — not imported\n"@,
    ) by {
        let part = "  [keybindings] "@ + m.keymap_unmapped[i] + u2;
        lemma_framed("  [keybindings] "@, m.keymap_unmapped, u2, i);
        lemma_right(s8, p8, part);
        lemma_left3(s9, p9, run, m.theme_name, part);
        lemma_left(s12, end, part);
    }
    assert forall|i: int| 0 <= i < m.keymap_bad_keys.len() implies holds(
        text,
        "  [keybindings] "@ + (#[trigger] m.keymap_bad_keys[i]) + " — not imported\n"@,
    ) by {
        let part = "  [keybindings] "@ + m.keymap_bad_keys[i] + u3;
        lemma_framed("  [keybindings] "@, m.keymap_bad_keys, u3, i);
        lemma_right(s9, p9, part);
        lemma_left3(s10, run, m.theme_name, end, part);
    }
    lemma_try_it(s10, m.theme_name);
}

proof fn lemma_summary_end(
    s: Seq<char>,
    a: Seq<char>,
    b: Seq<char>,
    c: Seq<char>,
    d: Seq<char>,
    e: Seq<char>,
    f: Seq<char>,
    part: Seq<char>,
)
    requires
        holds(s, part),
    ensures
        holds(s + a + b + c + d + e + f, part),
{
    lemma_left3(s, a, b, c, part);
    lemma_left3(s + a + b + c, d, e, f, part);
}

proof fn lemma_try_it(before: Seq<char>, name: Seq<char>)
    ensures
        holds(
            before + "\nRun `:theme "@ + name
                + "` to try it; `wikitui config doctor` re-checks its contrast.\n"@,
            "`:theme "@ + name + "`"@,
        ),
{
    reveal_strlit("\nRun `:theme ");
    reveal_strlit("`:theme ");
    reveal_strlit("`");
    reveal_strlit("` to try it; `wikitui config doctor` re-checks its contrast.\n");
    let run = "\nRun `:theme "@;
    let end = "` to try it; `wikitui config doctor` re-checks its contrast.\n"@;
    let part = "`:theme "@ + name + "`"@;
    let a = before + run.take(5);
    let b = end.skip(1);
    assert(run =~= run.take(5) + "`:theme "@);
    assert(end =~= "`"@ + b);
    assert(before + run + name + end =~= a + part + b);
}

} // verus!
