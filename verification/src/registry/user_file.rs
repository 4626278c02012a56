//! The user's keymap file over a keymap.
use crate::registry::chord::{leader_char, parsed_chord, single_leader_char, Chord};
use crate::registry::command::{action_named, context_named, Action, KeyContext};
use crate::registry::keymap::{slot, Keymap, KeymapModel};
use crate::text::{debug_quoted, quoted, same_str, views};
use crate::toml_text::{
    entries_model, lines_model, parse_toml, toml_table, EntryModel, LineModel, TomlEntry, TomlLine,
    TomlValue, ValueModel,
};
use vstd::prelude::*;

verus! {

/// A keymap with part of a file over it, and the warnings so far.
#[verifier::ext_equal]
pub struct Applied {
    pub map: KeymapModel,
    pub warnings: Seq<Seq<char>>,
}

impl Applied {
    /// One more warning.
    pub open spec fn warn(self, text: Seq<char>) -> Applied {
        Applied { map: self.map, warnings: self.warnings.push(text) }
    }

    /// Another leader key.
    pub open spec fn lead(self, c: char) -> Applied {
        Applied { map: KeymapModel { leader_key: c, ..self.map }, warnings: self.warnings }
    }

    /// One more leader binding.
    pub open spec fn bind_leader(self, chord: Chord, action: Action) -> Applied {
        Applied {
            map: KeymapModel { leader: self.map.leader.insert(chord, action), ..self.map },
            warnings: self.warnings,
        }
    }

    /// One more override.
    pub open spec fn bind(self, ctx: KeyContext, chord: Chord, action: Action) -> Applied {
        Applied {
            map: KeymapModel {
                overrides: self.map.overrides.insert(slot(ctx, chord), action),
                ..self.map
            },
            warnings: self.warnings,
        }
    }

    /// A line of the leader table: a key and the command it leads to.
    pub open spec fn leader_line(self, line: LineModel) -> Applied {
        match parsed_chord(line.key) {
            None => self.warn(
                "keymap.toml: [leader] "@ + debug_quoted(line.key)
                    + " is not a recognizable key — ignored"@,
            ),
            Some(chord) => match line.text {
                Some(t) => match action_named(t) {
                    Some(action) => self.bind_leader(chord, action),
                    None => self.warn(
                        "keymap.toml: [leader] "@ + line.key + " -> unknown command — ignored"@,
                    ),
                },
                None => self.warn(
                    "keymap.toml: [leader] "@ + line.key + " -> unknown command — ignored"@,
                ),
            },
        }
    }

    /// A line of a context's table: a key and the command it leads to.
    pub open spec fn context_line(self, section: Seq<char>, ctx: KeyContext, line: LineModel) -> Applied {
        let place = "keymap.toml: ["@ + section + "] "@;
        match parsed_chord(line.key) {
            None => self.warn(
                place + debug_quoted(line.key) + " is not a recognizable key — ignored"@,
            ),
            Some(chord) => match line.text {
                None => self.warn(place + line.key + " must map to a command name string"@),
                Some(t) => match action_named(t) {
                    None => self.warn(
                        place + line.key + " -> unknown command "@ + debug_quoted(t)
                            + " — ignored"@,
                    ),
                    Some(action) => self.bind(ctx, chord, action),
                },
            },
        }
    }

    /// The lines of the leader table, in order.
    pub open spec fn leader_lines(self, lines: Seq<LineModel>) -> Applied
        decreases lines.len(),
    {
        if lines.len() == 0 {
            self
        } else {
            self.leader_lines(lines.drop_last()).leader_line(lines.last())
        }
    }

    /// The lines of a context's table, in order.
    pub open spec fn context_lines(
        self,
        section: Seq<char>,
        ctx: KeyContext,
        lines: Seq<LineModel>,
    ) -> Applied
        decreases lines.len(),
    {
        if lines.len() == 0 {
            self
        } else {
            self.context_lines(section, ctx, lines.drop_last()).context_line(
                section,
                ctx,
                lines.last(),
            )
        }
    }

    /// A top-level entry: the leader key, the leader table, or a context's
    /// table.
    pub open spec fn entry(self, e: EntryModel) -> Applied {
        if e.key == "leader-key"@ {
            let c = match e.value {
                ValueModel::Text(t) => leader_char(t),
                _ => None,
            };
            match c {
                Some(c) => self.lead(c),
                None => self.warn(
                    "keymap.toml: leader-key must be a single-character string"@,
                ),
            }
        } else if e.key == "leader"@ {
            match e.value {
                ValueModel::Table(lines) => self.leader_lines(lines),
                _ => self.warn("keymap.toml: [leader] must be a table of key = command"@),
            }
        } else {
            match context_named(e.key) {
                None => self.warn(
                    "keymap.toml: unknown context ["@ + e.key
                        + "] — ignored (try: global, reading, startpage, picker, search, leader)"@,
                ),
                Some(ctx) => match e.value {
                    ValueModel::Table(lines) => self.context_lines(e.key, ctx, lines),
                    _ => self.warn(
                        "keymap.toml: ["@ + e.key + "] must be a table of key = command"@,
                    ),
                },
            }
        }
    }

    /// A file's entries, in order.
    pub open spec fn entries(self, es: Seq<EntryModel>) -> Applied
        decreases es.len(),
    {
        if es.len() == 0 {
            self
        } else {
            self.entries(es.drop_last()).entry(es.last())
        }
    }
}

/// A keymap before any of a file is over it.
pub open spec fn untouched(map: KeymapModel) -> Applied {
    Applied { map, warnings: Seq::empty() }
}

/// A keymap with a file over it.
pub open spec fn applied(map: KeymapModel, entries: Seq<EntryModel>) -> Applied {
    untouched(map).entries(entries)
}

/// What a keymap and its warnings amount to.
spec fn so_far(km: Keymap, warnings: Seq<String>) -> Applied {
    Applied { map: km@, warnings: views(warnings) }
}

fn add_warning(warnings: &mut Vec<String>, text: String)
    ensures
        views(final(warnings)@) == views(old(warnings)@).push(text@),
{
    let ghost pre = warnings@;
    warnings.push(text);
    proof { assert(views(warnings@) =~= views(pre).push(text@)); }
}

fn join3(a: &str, b: &str, c: &str) -> (r: String)
    ensures
        r@ == a@ + b@ + c@,
{
    let mut out = a.to_owned();
    out.push_str(b);
    out.push_str(c);
    out
}

fn unknown_leader(key: &str) -> (r: String)
    ensures
        r@ == "keymap.toml: [leader] "@ + key@ + " -> unknown command — ignored"@,
{
    join3("keymap.toml: [leader] ", key, " -> unknown command — ignored")
}

impl Keymap {
    fn apply_leader_line(&mut self, line: &TomlLine, warnings: &mut Vec<String>)
        ensures
            so_far(*final(self), final(warnings)@) == so_far(*old(self), old(warnings)@).leader_line(
                line@,
            ),
    {
        match Chord::parse(line.key.as_str()) {
            None => {
                let text = join3(
                    "keymap.toml: [leader] ",
                    quoted(line.key.as_str()).as_str(),
                    " is not a recognizable key — ignored",
                );
                add_warning(warnings, text);
            },
            Some(chord) => match &line.text {
                Some(t) => match Action::by_name(t.as_str()) {
                    Some(action) => self.set_leader_binding(chord, action),
                    None => add_warning(warnings, unknown_leader(line.key.as_str())),
                },
                None => add_warning(warnings, unknown_leader(line.key.as_str())),
            },
        }
    }

    fn apply_context_line(
        &mut self,
        section: &str,
        ctx: KeyContext,
        line: &TomlLine,
        warnings: &mut Vec<String>,
    )
        ensures
            so_far(*final(self), final(warnings)@) == so_far(
                *old(self),
                old(warnings)@,
            ).context_line(section@, ctx, line@),
    {
        let place = join3("keymap.toml: [", section, "] ");
        match Chord::parse(line.key.as_str()) {
            None => {
                let text = join3(
                    place.as_str(),
                    quoted(line.key.as_str()).as_str(),
                    " is not a recognizable key — ignored",
                );
                add_warning(warnings, text);
            },
            Some(chord) => match &line.text {
                None => {
                    let text = join3(
                        place.as_str(),
                        line.key.as_str(),
                        " must map to a command name string",
                    );
                    add_warning(warnings, text);
                },
                Some(t) => match Action::by_name(t.as_str()) {
                    None => {
                        let mut text = join3(
                            place.as_str(),
                            line.key.as_str(),
                            " -> unknown command ",
                        );
                        text.push_str(quoted(t.as_str()).as_str());
                        text.push_str(" — ignored");
                        add_warning(warnings, text);
                    },
                    Some(action) => self.apply_override(ctx, chord, action),
                },
            },
        }
    }

    fn apply_leader_lines(&mut self, lines: &Vec<TomlLine>, warnings: &mut Vec<String>)
        ensures
            so_far(*final(self), final(warnings)@) == so_far(
                *old(self),
                old(warnings)@,
            ).leader_lines(lines_model(lines@)),
    {
        let ghost before = so_far(*self, warnings@);
        let ghost all = lines_model(lines@);
        let n: usize = lines.len();
        for i in 0..n
            invariant
                n == lines.len(),
                all == lines_model(lines@),
                so_far(*self, warnings@) == before.leader_lines(all.take(i as int)),
        {
            proof { assert(all.take(i + 1).drop_last() =~= all.take(i as int)); }
            self.apply_leader_line(&lines[i], warnings);
        }
        proof { assert(all.take(n as int) =~= all); }
    }

    fn apply_context_lines(
        &mut self,
        section: &str,
        ctx: KeyContext,
        lines: &Vec<TomlLine>,
        warnings: &mut Vec<String>,
    )
        ensures
            so_far(*final(self), final(warnings)@) == so_far(
                *old(self),
                old(warnings)@,
            ).context_lines(section@, ctx, lines_model(lines@)),
    {
        let ghost before = so_far(*self, warnings@);
        let ghost all = lines_model(lines@);
        let n: usize = lines.len();
        for i in 0..n
            invariant
                n == lines.len(),
                all == lines_model(lines@),
                so_far(*self, warnings@) == before.context_lines(section@, ctx, all.take(i as int)),
        {
            proof { assert(all.take(i + 1).drop_last() =~= all.take(i as int)); }
            self.apply_context_line(section, ctx, &lines[i], warnings);
        }
        proof { assert(all.take(n as int) =~= all); }
    }

    fn apply_entry(&mut self, e: &TomlEntry, warnings: &mut Vec<String>)
        ensures
            so_far(*final(self), final(warnings)@) == so_far(*old(self), old(warnings)@).entry(e@),
    {
        if same_str(e.key.as_str(), "leader-key") {
            let c = match &e.value {
                TomlValue::Text(t) => single_leader_char(t.as_str()),
                _ => None,
            };
            match c {
                Some(c) => self.set_leader_key(c),
                None => add_warning(
                    warnings,
                    "keymap.toml: leader-key must be a single-character string".to_owned(),
                ),
            }
        } else if same_str(e.key.as_str(), "leader") {
            match &e.value {
                TomlValue::Table(lines) => self.apply_leader_lines(lines, warnings),
                _ => add_warning(
                    warnings,
                    "keymap.toml: [leader] must be a table of key = command".to_owned(),
                ),
            }
        } else {
            match KeyContext::from_toml_name(e.key.as_str()) {
                None => {
                    let text = join3(
                        "keymap.toml: unknown context [",
                        e.key.as_str(),
                        "] — ignored (try: global, reading, startpage, picker, search, leader)",
                    );
                    add_warning(warnings, text);
                },
                Some(ctx) => match &e.value {
                    TomlValue::Table(lines) => self.apply_context_lines(
                        e.key.as_str(),
                        ctx,
                        lines,
                        warnings,
                    ),
                    _ => {
                        let text = join3(
                            "keymap.toml: [",
                            e.key.as_str(),
                            "] must be a table of key = command",
                        );
                        add_warning(warnings, text);
                    },
                },
            }
        }
    }

    /// Puts a keymap file's entries over the keymap. What cannot be applied
    /// leaves the keymap as it is and gives a warning.
    pub fn apply_entries(&mut self, entries: &Vec<TomlEntry>) -> (r: Vec<String>)
        ensures
            final(self)@ == applied(old(self)@, entries_model(entries@)).map,
            views(r@) == applied(old(self)@, entries_model(entries@)).warnings,
    {
        let mut warnings: Vec<String> = Vec::new();
        let ghost before = untouched(self@);
        let ghost all = entries_model(entries@);
        let n: usize = entries.len();
        proof { assert(so_far(*self, warnings@) =~= before); }
        for i in 0..n
            invariant
                n == entries.len(),
                all == entries_model(entries@),
                so_far(*self, warnings@) == before.entries(all.take(i as int)),
        {
            proof { assert(all.take(i + 1).drop_last() =~= all.take(i as int)); }
            self.apply_entry(&entries[i], &mut warnings);
        }
        proof { assert(all.take(n as int) =~= all); }
        warnings
    }

    /// Puts a keymap file over the keymap. A file that is no TOML leaves the
    /// keymap as it is and gives one warning.
    pub fn apply_user_toml(&mut self, text: &str) -> (r: Vec<String>)
        ensures
            match toml_table(text@) {
                Err(e) => final(self)@ == old(self)@ && views(r@)
                    == seq!["keymap.toml is not valid TOML: "@ + e],
                Ok(entries) => final(self)@ == applied(old(self)@, entries).map && views(r@)
                    == applied(old(self)@, entries).warnings,
            },
    {
        match parse_toml(text) {
            Err(e) => {
                let mut line = "keymap.toml is not valid TOML: ".to_owned();
                line.push_str(e.as_str());
                let mut out: Vec<String> = Vec::new();
                add_warning(&mut out, line);
                proof { assert(views(out@) =~= seq!["keymap.toml is not valid TOML: "@ + e@]); }
                out
            },
            Ok(entries) => self.apply_entries(&entries),
        }
    }
}

/// A file changes the overrides and the leader space, never the preset.
pub proof fn files_keep_the_preset(map: KeymapModel, entries: Seq<EntryModel>)
    ensures
        applied(map, entries).map.base == map.base,
{
    lemma_entries_keep_base(untouched(map), entries);
}

proof fn lemma_entries_keep_base(a: Applied, es: Seq<EntryModel>)
    ensures
        a.entries(es).map.base == a.map.base,
    decreases es.len(),
{
    if es.len() > 0 {
        lemma_entries_keep_base(a, es.drop_last());
        let b = a.entries(es.drop_last());
        let e = es.last();
        match e.value {
            ValueModel::Table(lines) => {
                lemma_leader_lines_keep_base(b, lines);
                match context_named(e.key) {
                    Some(ctx) => lemma_context_lines_keep_base(b, e.key, ctx, lines),
                    None => {},
                }
            },
            _ => {},
        }
    }
}

proof fn lemma_leader_lines_keep_base(a: Applied, lines: Seq<LineModel>)
    ensures
        a.leader_lines(lines).map.base == a.map.base,
    decreases lines.len(),
{
    if lines.len() > 0 {
        lemma_leader_lines_keep_base(a, lines.drop_last());
    }
}

proof fn lemma_context_lines_keep_base(
    a: Applied,
    section: Seq<char>,
    ctx: KeyContext,
    lines: Seq<LineModel>,
)
    ensures
        a.context_lines(section, ctx, lines).map.base == a.map.base,
    decreases lines.len(),
{
    if lines.len() > 0 {
        lemma_context_lines_keep_base(a, section, ctx, lines.drop_last());
    }
}

/// A line that cannot be applied gives one warning and changes nothing; one
/// that can gives none.
pub proof fn a_bad_line_only_warns(a: Applied, section: Seq<char>, ctx: KeyContext, line: LineModel)
    ensures
        ({
            let b = a.context_line(section, ctx, line);
            ||| b.map == a.map && b.warnings.len() == a.warnings.len() + 1
            ||| b.warnings == a.warnings && exists|chord: Chord, action: Action|
                b.map == (#[trigger] a.bind(ctx, chord, action)).map
        }),
{
    let b = a.context_line(section, ctx, line);
    match parsed_chord(line.key) {
        Some(chord) => match line.text {
            Some(t) => match action_named(t) {
                Some(action) => {
                    assert(b == a.bind(ctx, chord, action));
                },
                None => {},
            },
            None => {},
        },
        None => {},
    }
}

} // verus!
