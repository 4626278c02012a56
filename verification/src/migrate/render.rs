//! What an import writes: the theme file, the keymap file, the summary, and
//! the names of the files.
use crate::migrate::colors::{color_text, display_color, Color, SemanticSlots};
use crate::migrate::import::{BindingModel, ImportModel, ImportResult, MappedBinding};
use crate::text::{debug_quoted, decimal, decimal_string, quoted, same_str, views};
use vstd::prelude::*;

verus! {

/// A line of a colour table; a slot without a colour has none.
pub open spec fn color_line(key: Seq<char>, c: Option<Color>) -> Seq<char> {
    match c {
        Some(c) => key + " = \""@ + color_text(c) + "\"\n"@,
        None => Seq::empty(),
    }
}

/// A theme file: the name, then the colours that are set.
pub open spec fn theme_toml(name: Seq<char>, slots: SemanticSlots) -> Seq<char> {
    "# Imported from a wiki-tui config (PRD FR-TH-8).\n# Review the colors below — derived slots are filled in automatically\n# when this file loads (see the [colors] schema in the wikitui docs).\n[meta]\nname = \""@
        + name + "\"\n\n[colors]\n"@ + color_line("bg"@, slots.bg) + color_line("fg"@, slots.fg)
        + color_line("accent"@, slots.accent) + color_line("link"@, slots.link) + color_line(
        "link_visited"@,
        slots.link_visited,
    ) + color_line("heading"@, slots.heading) + color_line("quote"@, slots.quote) + color_line(
        "code_bg"@,
        slots.code,
    ) + color_line("match"@, slots.match_fg) + color_line("warning"@, slots.warning) + color_line(
        "error"@,
        slots.error,
    ) + color_line("dim"@, slots.dim)
}

fn push_color(out: &mut String, key: &str, c: Option<Color>)
    ensures
        final(out)@ == old(out)@ + color_line(key@, c),
{
    let ghost before = out@;
    if let Some(c) = c {
        out.push_str(key);
        out.push_str(" = \"");
        out.push_str(display_color(c).as_str());
        out.push_str("\"\n");
        proof { assert(out@ =~= before + color_line(key@, Some(c))); }
    } else {
        proof { assert(out@ =~= before + color_line(key@, c)); }
    }
}

/// A theme file.
pub fn render_theme_toml(name: &str, slots: &SemanticSlots) -> (r: String)
    ensures
        r@ == theme_toml(name@, *slots),
{
    let mut out =
        "# Imported from a wiki-tui config (PRD FR-TH-8).\n# Review the colors below — derived slots are filled in automatically\n# when this file loads (see the [colors] schema in the wikitui docs).\n[meta]\nname = \"".to_owned();
    out.push_str(name);
    out.push_str("\"\n\n[colors]\n");
    push_color(&mut out, "bg", slots.bg);
    push_color(&mut out, "fg", slots.fg);
    push_color(&mut out, "accent", slots.accent);
    push_color(&mut out, "link", slots.link);
    push_color(&mut out, "link_visited", slots.link_visited);
    push_color(&mut out, "heading", slots.heading);
    push_color(&mut out, "quote", slots.quote);
    push_color(&mut out, "code_bg", slots.code);
    push_color(&mut out, "match", slots.match_fg);
    push_color(&mut out, "warning", slots.warning);
    push_color(&mut out, "error", slots.error);
    push_color(&mut out, "dim", slots.dim);
    out
}

/// The bindings of one context, a line each.
pub open spec fn binding_lines(bindings: Seq<BindingModel>, ctx: Seq<char>) -> Seq<char>
    decreases bindings.len(),
{
    if bindings.len() == 0 {
        Seq::empty()
    } else {
        let before = binding_lines(bindings.drop_last(), ctx);
        let b = bindings.last();
        if b.context == ctx {
            before + debug_quoted(b.key) + " = "@ + debug_quoted(b.action_name) + "\n"@
        } else {
            before
        }
    }
}

/// Some binding stands in the context.
pub open spec fn has_context(bindings: Seq<BindingModel>, ctx: Seq<char>) -> bool {
    exists|i: int| 0 <= i < bindings.len() && (#[trigger] bindings[i]).context == ctx
}

/// A context's table; a context without bindings has none.
pub open spec fn context_table(bindings: Seq<BindingModel>, ctx: Seq<char>) -> Seq<char> {
    if has_context(bindings, ctx) {
        "\n["@ + ctx + "]\n"@ + binding_lines(bindings, ctx)
    } else {
        Seq::empty()
    }
}

/// A keymap file: a table for each context that has bindings.
pub open spec fn keymap_toml(bindings: Seq<BindingModel>) -> Seq<char> {
    "# Imported from a wiki-tui config (PRD FR-TH-8).\n# Unmapped wiki-tui bindings are listed in the import summary, not here.\n"@
        + context_table(bindings, "global"@) + context_table(bindings, "reading"@) + context_table(
        bindings,
        "startpage"@,
    ) + context_table(bindings, "picker"@) + context_table(bindings, "search"@)
}

fn any_in(bindings: &Vec<MappedBinding>, ctx: &str) -> (r: bool)
    ensures
        r == has_context(views(bindings@), ctx@),
{
    let n: usize = bindings.len();
    for i in 0..n
        invariant
            n == bindings.len(),
            forall|j: int| 0 <= j < i ==> (#[trigger] views(bindings@)[j]).context != ctx@,
    {
        if same_str(bindings[i].context, ctx) {
            assert(views(bindings@)[i as int].context == ctx@);
            return true;
        }
    }
    false
}

fn push_context(out: &mut String, bindings: &Vec<MappedBinding>, ctx: &str)
    ensures
        final(out)@ == old(out)@ + context_table(views(bindings@), ctx@),
{
    let ghost before = out@;
    let ghost all = views(bindings@);
    if !any_in(bindings, ctx) {
        proof { assert(out@ =~= before + context_table(all, ctx@)); }
        return ;
    }
    out.push_str("\n[");
    out.push_str(ctx);
    out.push_str("]\n");
    let ghost head = out@;
    proof {
        assert(head =~= before + ("\n["@ + ctx@ + "]\n"@));
        assert(head + binding_lines(all.take(0), ctx@) =~= head);
    }
    let n: usize = bindings.len();
    for i in 0..n
        invariant
            n == bindings.len(),
            all == views(bindings@),
            out@ == head + binding_lines(all.take(i as int), ctx@),
    {
        let ghost so_far = binding_lines(all.take(i as int), ctx@);
        proof { assert(all.take(i + 1).drop_last() =~= all.take(i as int)); }
        let b = &bindings[i];
        if same_str(b.context, ctx) {
            out.push_str(quoted(b.key.as_str()).as_str());
            out.push_str(" = ");
            out.push_str(quoted(b.action_name).as_str());
            out.push_str("\n");
            proof {
                assert(out@ =~= head + (so_far + debug_quoted(b.key@) + " = "@ + debug_quoted(
                    b.action_name@,
                ) + "\n"@));
            }
        }
    }
    proof {
        assert(all.take(n as int) =~= all);
        assert(out@ =~= before + context_table(all, ctx@));
    }
}

/// A keymap file.
pub fn render_keymap_toml(bindings: &Vec<MappedBinding>) -> (r: String)
    ensures
        r@ == keymap_toml(views(bindings@)),
{
    let mut out =
        "# Imported from a wiki-tui config (PRD FR-TH-8).\n# Unmapped wiki-tui bindings are listed in the import summary, not here.\n".to_owned();
    push_context(&mut out, bindings, "global");
    push_context(&mut out, bindings, "reading");
    push_context(&mut out, bindings, "startpage");
    push_context(&mut out, bindings, "picker");
    push_context(&mut out, bindings, "search");
    out
}

/// What an import wrote, and where.
#[derive(Debug, Clone)]
pub struct Written {
    pub result: ImportResult,
    pub theme_path: String,
    pub keymap_path: String,
    /// A keymap file was there already, so this one has another name.
    pub keymap_renamed: bool,
}

/// The lines on the colours that were brought over.
pub open spec fn mapped_lines(mapped: Seq<(Seq<char>, Seq<char>)>) -> Seq<char>
    decreases mapped.len(),
{
    if mapped.len() == 0 {
        Seq::empty()
    } else {
        mapped_lines(mapped.drop_last()) + "  [theme] "@ + mapped.last().1 + " -> "@
            + mapped.last().0 + "\n"@
    }
}

/// One line for each text, between two others.
pub open spec fn framed_lines(head: Seq<char>, list: Seq<Seq<char>>, tail: Seq<char>) -> Seq<char>
    decreases list.len(),
{
    if list.len() == 0 {
        Seq::empty()
    } else {
        framed_lines(head, list.drop_last(), tail) + head + list.last() + tail
    }
}

/// The lines on the bindings that were brought over.
pub open spec fn bound_lines(bindings: Seq<BindingModel>) -> Seq<char>
    decreases bindings.len(),
{
    if bindings.len() == 0 {
        Seq::empty()
    } else {
        let b = bindings.last();
        bound_lines(bindings.drop_last()) + "  [keybindings] "@ + b.from_wikitui_key + " = "@
            + debug_quoted(b.key) + " -> "@ + b.action_name + " ("@ + b.context + ")\n"@
    }
}

/// The summary that tells what was brought over and what was not.
pub open spec fn summary(
    m: ImportModel,
    theme_path: Seq<char>,
    keymap_path: Seq<char>,
    renamed: bool,
) -> Seq<char> {
    "Imported theme -> "@ + theme_path + "\n"@ + mapped_lines(m.theme_mapped) + framed_lines(
        "  [theme] "@,
        m.theme_unmapped,
        ": not recognized — not imported (derive manually if needed)\n"@,
    ) + "Imported keymap -> "@ + keymap_path + (if renamed {
        " (keymap.toml already existed — merge by hand)\n"@
    } else {
        "\n"@
    }) + bound_lines(m.keymap_bindings) + framed_lines(
        "  [keybindings] "@,
        m.keymap_unmapped,
        ": not recognized — not imported\n"@,
    ) + framed_lines("  [keybindings] "@, m.keymap_bad_keys, " — not imported\n"@)
        + "\nRun `:theme "@ + m.theme_name
        + "` to try it; `wikitui config doctor` re-checks its contrast.\n"@
}

fn push_mapped(out: &mut String, mapped: &Vec<(String, String)>)
    ensures
        final(out)@ == old(out)@ + mapped_lines(views(mapped@)),
{
    let ghost before = out@;
    let ghost all = views(mapped@);
    let n: usize = mapped.len();
    proof { assert(before + mapped_lines(all.take(0)) =~= before); }
    for i in 0..n
        invariant
            n == mapped.len(),
            all == views(mapped@),
            out@ == before + mapped_lines(all.take(i as int)),
    {
        let ghost so_far = mapped_lines(all.take(i as int));
        proof {
            assert(all.take(i + 1).drop_last() =~= all.take(i as int));
            assert(all.take(i + 1).last() == (mapped@[i as int].0@, mapped@[i as int].1@));
        }
        out.push_str("  [theme] ");
        out.push_str(mapped[i].1.as_str());
        out.push_str(" -> ");
        out.push_str(mapped[i].0.as_str());
        out.push_str("\n");
        proof {
            assert(out@ =~= before + (so_far + "  [theme] "@ + mapped@[i as int].1@ + " -> "@
                + mapped@[i as int].0@ + "\n"@));
        }
    }
    proof { assert(all.take(n as int) =~= all); }
}

fn push_framed(out: &mut String, head: &str, list: &Vec<String>, tail: &str)
    ensures
        final(out)@ == old(out)@ + framed_lines(head@, views(list@), tail@),
{
    let ghost before = out@;
    let ghost all = views(list@);
    let n: usize = list.len();
    proof { assert(before + framed_lines(head@, all.take(0), tail@) =~= before); }
    for i in 0..n
        invariant
            n == list.len(),
            all == views(list@),
            out@ == before + framed_lines(head@, all.take(i as int), tail@),
    {
        let ghost so_far = framed_lines(head@, all.take(i as int), tail@);
        proof { assert(all.take(i + 1).drop_last() =~= all.take(i as int)); }
        out.push_str(head);
        out.push_str(list[i].as_str());
        out.push_str(tail);
        proof { assert(out@ =~= before + (so_far + head@ + list@[i as int]@ + tail@)); }
    }
    proof { assert(all.take(n as int) =~= all); }
}

fn push_bound(out: &mut String, bindings: &Vec<MappedBinding>)
    ensures
        final(out)@ == old(out)@ + bound_lines(views(bindings@)),
{
    let ghost before = out@;
    let ghost all = views(bindings@);
    let n: usize = bindings.len();
    proof { assert(before + bound_lines(all.take(0)) =~= before); }
    for i in 0..n
        invariant
            n == bindings.len(),
            all == views(bindings@),
            out@ == before + bound_lines(all.take(i as int)),
    {
        let ghost so_far = bound_lines(all.take(i as int));
        proof { assert(all.take(i + 1).drop_last() =~= all.take(i as int)); }
        let b = &bindings[i];
        out.push_str("  [keybindings] ");
        out.push_str(b.from_wikitui_key.as_str());
        out.push_str(" = ");
        out.push_str(quoted(b.key.as_str()).as_str());
        out.push_str(" -> ");
        out.push_str(b.action_name);
        out.push_str(" (");
        out.push_str(b.context);
        out.push_str(")\n");
        proof {
            assert(out@ =~= before + (so_far + "  [keybindings] "@ + b.from_wikitui_key@ + " = "@
                + debug_quoted(b.key@) + " -> "@ + b.action_name@ + " ("@ + b.context@ + ")\n"@));
        }
    }
    proof { assert(all.take(n as int) =~= all); }
}

/// The summary that tells what was brought over and what was not.
pub fn summarize(written: &Written) -> (r: String)
    ensures
        r@ == summary(
            written.result@,
            written.theme_path@,
            written.keymap_path@,
            written.keymap_renamed,
        ),
{
    let m = &written.result;
    let mut out = "Imported theme -> ".to_owned();
    out.push_str(written.theme_path.as_str());
    out.push_str("\n");
    push_mapped(&mut out, &m.theme_mapped);
    push_framed(
        &mut out,
        "  [theme] ",
        &m.theme_unmapped,
        ": not recognized — not imported (derive manually if needed)\n",
    );
    out.push_str("Imported keymap -> ");
    out.push_str(written.keymap_path.as_str());
    if written.keymap_renamed {
        out.push_str(" (keymap.toml already existed — merge by hand)\n");
    } else {
        out.push_str("\n");
    }
    push_bound(&mut out, &m.keymap_bindings);
    push_framed(
        &mut out,
        "  [keybindings] ",
        &m.keymap_unmapped,
        ": not recognized — not imported\n",
    );
    push_framed(&mut out, "  [keybindings] ", &m.keymap_bad_keys, " — not imported\n");
    out.push_str("\nRun `:theme ");
    out.push_str(m.theme_name.as_str());
    out.push_str("` to try it; `wikitui config doctor` re-checks its contrast.\n");
    out
}

/// Where an import reads from.
#[derive(Debug, Clone, Copy, PartialEq, Eq, Structural)]
pub enum Source {
    /// The path itself.
    File,
    /// The `config.toml` in the directory.
    ConfigInDirectory,
}

/// Where an import reads from, given what stands at the path: the file, or the
/// `config.toml` of a directory that has one.
pub fn source_file(path: &str, is_dir: bool, has_config: bool, is_file: bool) -> (r: Result<
    Source,
    String,
>)
    ensures
        is_dir && has_config ==> r == Ok::<Source, String>(Source::ConfigInDirectory),
        is_dir && !has_config ==> (r matches Err(e) && e@ == path@
            + " is a directory with no config.toml in it"@),
        !is_dir && is_file ==> r == Ok::<Source, String>(Source::File),
        !is_dir && !is_file ==> (r matches Err(e) && e@ == path@ + " does not exist"@),
{
    if is_dir {
        if has_config {
            Ok(Source::ConfigInDirectory)
        } else {
            let mut text = path.to_owned();
            text.push_str(" is a directory with no config.toml in it");
            Err(text)
        }
    } else if is_file {
        Ok(Source::File)
    } else {
        let mut text = path.to_owned();
        text.push_str(" does not exist");
        Err(text)
    }
}

/// A file name with a number before its extension.
pub fn numbered_name(stem: &str, ext: &str, n: usize) -> (r: String)
    ensures
        r@ == stem@ + "-"@ + decimal(n as nat) + ext@,
{
    let mut out = stem.to_owned();
    out.push_str("-");
    out.push_str(decimal_string(n as u64).as_str());
    out.push_str(ext);
    out
}

/// Which name to write under: `taken` says of the plain name, then of the
/// numbered names in order, whether a file has it. The first free one is
/// chosen; a name that a file has never is.
pub fn unique_choice(taken: &Vec<bool>) -> (r: Option<usize>)
    ensures
        r matches Some(n) ==> n < taken@.len() && !taken@[n as int] && forall|i: int|
            0 <= i < n ==> #[trigger] taken@[i],
        r is None <==> forall|i: int| 0 <= i < taken@.len() ==> #[trigger] taken@[i],
{
    let mut i: usize = 0;
    while i < taken.len()
        invariant
            i <= taken.len(),
            forall|j: int| 0 <= j < i ==> #[trigger] taken@[j],
        decreases taken.len() - i,
    {
        if !taken[i] {
            assert(!taken@[i as int]);
            return Some(i);
        }
        i = i + 1;
    }
    None
}

/// The name of the keymap file to write: not that of one that is there.
pub fn keymap_file_name(exists: bool) -> (r: &'static str)
    ensures
        r@ == (if exists {
            "keymap.from-wiki-tui.toml"@
        } else {
            "keymap.toml"@
        }),
        exists ==> r@ != "keymap.toml"@,
{
    proof {
        reveal_strlit("keymap.from-wiki-tui.toml");
        reveal_strlit("keymap.toml");
        assert("keymap.from-wiki-tui.toml"@.len() != "keymap.toml"@.len());
    }
    if exists {
        "keymap.from-wiki-tui.toml"
    } else {
        "keymap.toml"
    }
}

} // verus!
