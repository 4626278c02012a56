//! Reading a wiki-tui configuration. Each slot and each command goes by
//! several spellings; the first that the file uses counts, and a key that none
//! of them names is reported.
use crate::migrate::colors::{
    no_colors, parse_hex_color, parsed_color, slot_name, with_slot, Color, SemanticSlots, ThemeSlot,
};
use crate::registry::chord::{parsed_chord, Chord};
use crate::registry::command::{context_name, contexts_of, meta, name_of, Action, KeyContext};
use crate::text::{debug_quoted, quoted, same_str, views};
use crate::toml_text::{
    entries_model, line_text, lines_model, parse_toml, table_lines, table_under, text_under,
    toml_table, EntryModel, LineModel, TomlEntry, TomlLine,
};
use vstd::prelude::*;

verus! {

/// The spellings of a theme slot, in the order they are tried.
pub open spec fn slot_aliases(slot: ThemeSlot) -> Seq<Seq<char>> {
    match slot {
        ThemeSlot::Bg => seq!["background"@, "bg"@],
        ThemeSlot::Fg => seq!["foreground"@, "fg"@, "text"@],
        ThemeSlot::Accent => seq!["title"@, "accent"@, "heading"@],
        ThemeSlot::LinkVisited => seq!["highlight_inactive"@, "visited"@, "visited_link"@],
        ThemeSlot::Match => seq!["search_match"@, "highlight_text"@, "match"@],
        ThemeSlot::Dim => seq!["disabled"@, "dim"@],
    }
}

/// The slots in the order they are filled.
pub open spec fn slot_order() -> Seq<ThemeSlot> {
    seq![
        ThemeSlot::Bg,
        ThemeSlot::Fg,
        ThemeSlot::Accent,
        ThemeSlot::LinkVisited,
        ThemeSlot::Match,
        ThemeSlot::Dim,
    ]
}

/// The spellings of a command, in the order they are tried.
pub open spec fn key_aliases(a: Action) -> Seq<Seq<char>> {
    match a {
        Action::ScrollUp => seq!["up"@, "scroll_up"@, "move_up"@],
        Action::ScrollDown => seq!["down"@, "scroll_down"@, "move_down"@],
        Action::ScrollTablesLeft => seq!["left"@, "scroll_left"@],
        Action::ScrollTablesRight => seq!["right"@, "scroll_right"@],
        Action::HalfPageUp => seq!["page_up"@, "scroll_page_up"@],
        Action::HalfPageDown => seq!["page_down"@, "scroll_page_down"@],
        Action::ScrollTop => seq!["top"@, "scroll_top"@, "go_to_top"@],
        Action::ScrollBottom => seq!["bottom"@, "scroll_bottom"@, "go_to_bottom"@],
        Action::FollowLink => seq!["select"@, "toggle"@, "confirm"@, "open_link"@, "enter"@],
        Action::Back => seq!["back"@, "go_back"@],
        Action::Forward => seq!["forward"@, "go_forward"@],
        Action::Search => seq!["search"@, "open_search"@, "open_search_bar"@],
        Action::Toc => seq!["toc"@, "open_toc"@, "toggle_toc"@, "table_of_contents"@],
        Action::Help => seq!["help"@, "toggle_help"@, "open_help"@],
        Action::Quit => seq!["quit"@, "exit"@],
        _ => Seq::empty(),
    }
}

/// The commands in the order they are looked for.
pub open spec fn key_order() -> Seq<Action> {
    seq![
        Action::ScrollUp,
        Action::ScrollDown,
        Action::ScrollTablesLeft,
        Action::ScrollTablesRight,
        Action::HalfPageUp,
        Action::HalfPageDown,
        Action::ScrollTop,
        Action::ScrollBottom,
        Action::FollowLink,
        Action::Back,
        Action::Forward,
        Action::Search,
        Action::Toc,
        Action::Help,
        Action::Quit,
    ]
}

fn slot_spellings(slot: ThemeSlot) -> (r: Vec<&'static str>)
    ensures
        views(r@) == slot_aliases(slot),
{
    let out: Vec<&'static str> = match slot {
        ThemeSlot::Bg => vec!["background", "bg"],
        ThemeSlot::Fg => vec!["foreground", "fg", "text"],
        ThemeSlot::Accent => vec!["title", "accent", "heading"],
        ThemeSlot::LinkVisited => vec!["highlight_inactive", "visited", "visited_link"],
        ThemeSlot::Match => vec!["search_match", "highlight_text", "match"],
        ThemeSlot::Dim => vec!["disabled", "dim"],
    };
    proof { assert(views(out@) =~= slot_aliases(slot)); }
    out
}

fn slots_in_order() -> (r: Vec<ThemeSlot>)
    ensures
        r@ == slot_order(),
{
    let out: Vec<ThemeSlot> = vec![
        ThemeSlot::Bg,
        ThemeSlot::Fg,
        ThemeSlot::Accent,
        ThemeSlot::LinkVisited,
        ThemeSlot::Match,
        ThemeSlot::Dim,
    ];
    proof { assert(out@ =~= slot_order()); }
    out
}

fn key_spellings(a: Action) -> (r: Vec<&'static str>)
    ensures
        views(r@) == key_aliases(a),
{
    let out: Vec<&'static str> = match a {
        Action::ScrollUp => vec!["up", "scroll_up", "move_up"],
        Action::ScrollDown => vec!["down", "scroll_down", "move_down"],
        Action::ScrollTablesLeft => vec!["left", "scroll_left"],
        Action::ScrollTablesRight => vec!["right", "scroll_right"],
        Action::HalfPageUp => vec!["page_up", "scroll_page_up"],
        Action::HalfPageDown => vec!["page_down", "scroll_page_down"],
        Action::ScrollTop => vec!["top", "scroll_top", "go_to_top"],
        Action::ScrollBottom => vec!["bottom", "scroll_bottom", "go_to_bottom"],
        Action::FollowLink => vec!["select", "toggle", "confirm", "open_link", "enter"],
        Action::Back => vec!["back", "go_back"],
        Action::Forward => vec!["forward", "go_forward"],
        Action::Search => vec!["search", "open_search", "open_search_bar"],
        Action::Toc => vec!["toc", "open_toc", "toggle_toc", "table_of_contents"],
        Action::Help => vec!["help", "toggle_help", "open_help"],
        Action::Quit => vec!["quit", "exit"],
        _ => Vec::new(),
    };
    proof { assert(views(out@) =~= key_aliases(a)); }
    out
}

fn keys_in_order() -> (r: Vec<Action>)
    ensures
        r@ == key_order(),
{
    let out: Vec<Action> = vec![
        Action::ScrollUp,
        Action::ScrollDown,
        Action::ScrollTablesLeft,
        Action::ScrollTablesRight,
        Action::HalfPageUp,
        Action::HalfPageDown,
        Action::ScrollTop,
        Action::ScrollBottom,
        Action::FollowLink,
        Action::Back,
        Action::Forward,
        Action::Search,
        Action::Toc,
        Action::Help,
        Action::Quit,
    ];
    proof { assert(out@ =~= key_order()); }
    out
}

/// A search for a slot's colour: the spellings that the file used, and the
/// first of them with a colour.
#[verifier::ext_equal]
pub struct ColorSearch {
    pub claimed: Seq<Seq<char>>,
    pub hit: Option<(Seq<char>, Color)>,
}

impl ColorSearch {
    /// One more spelling: it counts where none had a colour before.
    pub open spec fn attempt(self, lines: Seq<LineModel>, alias: Seq<char>) -> ColorSearch {
        if self.hit is Some {
            self
        } else {
            match text_under(lines, alias) {
                None => self,
                Some(raw) => ColorSearch {
                    claimed: self.claimed.push(alias),
                    hit: match parsed_color(raw) {
                        Some(c) => Some((alias, c)),
                        None => None,
                    },
                },
            }
        }
    }

    /// Spellings in order.
    pub open spec fn attempts(self, lines: Seq<LineModel>, aliases: Seq<Seq<char>>) -> ColorSearch
        decreases aliases.len(),
    {
        if aliases.len() == 0 {
            self
        } else {
            self.attempts(lines, aliases.drop_last()).attempt(lines, aliases.last())
        }
    }
}

/// What the theme table has given so far.
#[verifier::ext_equal]
pub struct ThemeModel {
    pub slots: SemanticSlots,
    /// Slot and spelling.
    pub mapped: Seq<(Seq<char>, Seq<char>)>,
    pub claimed: Seq<Seq<char>>,
}

/// Before any slot is looked for.
pub open spec fn theme_start() -> ThemeModel {
    ThemeModel { slots: no_colors(), mapped: Seq::empty(), claimed: Seq::empty() }
}

impl ThemeModel {
    /// One more slot.
    pub open spec fn slot(self, lines: Seq<LineModel>, slot: ThemeSlot) -> ThemeModel {
        let found = (ColorSearch { claimed: self.claimed, hit: None }).attempts(
            lines,
            slot_aliases(slot),
        );
        match found.hit {
            Some((alias, c)) => ThemeModel {
                slots: with_slot(self.slots, slot, c),
                mapped: self.mapped.push((slot_name(slot), alias)),
                claimed: found.claimed,
            },
            None => ThemeModel { slots: self.slots, mapped: self.mapped, claimed: found.claimed },
        }
    }

    /// Slots in order.
    pub open spec fn slots(self, lines: Seq<LineModel>, order: Seq<ThemeSlot>) -> ThemeModel
        decreases order.len(),
    {
        if order.len() == 0 {
            self
        } else {
            self.slots(lines, order.drop_last()).slot(lines, order.last())
        }
    }
}

/// The keys of a table that no spelling claimed.
pub open spec fn unclaimed(lines: Seq<LineModel>, claimed: Seq<Seq<char>>) -> Seq<Seq<char>>
    decreases lines.len(),
{
    if lines.len() == 0 {
        Seq::empty()
    } else {
        let before = unclaimed(lines.drop_last(), claimed);
        if claimed.contains(lines.last().key) {
            before
        } else {
            before.push(lines.last().key)
        }
    }
}

/// A key binding that was brought over.
#[derive(Debug, Clone, PartialEq, Eq)]
pub struct MappedBinding {
    /// The context's name in a keymap file.
    pub context: &'static str,
    /// The key as the file wrote it.
    pub key: String,
    /// The command's name.
    pub action_name: &'static str,
    /// The spelling that the file used.
    pub from_wikitui_key: String,
}

/// A binding's contents.
#[verifier::ext_equal]
pub struct BindingModel {
    pub context: Seq<char>,
    pub key: Seq<char>,
    pub action_name: Seq<char>,
    pub from_wikitui_key: Seq<char>,
}

impl View for MappedBinding {
    type V = BindingModel;

    open spec fn view(&self) -> BindingModel {
        BindingModel {
            context: self.context@,
            key: self.key@,
            action_name: self.action_name@,
            from_wikitui_key: self.from_wikitui_key@,
        }
    }
}

/// The context that an action is bound in.
pub open spec fn home_context(a: Action) -> KeyContext {
    if contexts_of(a).len() > 0 {
        contexts_of(a)[0]
    } else {
        KeyContext::Reading
    }
}

/// What the key table has given so far.
#[verifier::ext_equal]
pub struct KeysModel {
    pub bindings: Seq<BindingModel>,
    pub bad_keys: Seq<Seq<char>>,
    pub claimed: Seq<Seq<char>>,
}

/// Before any command is looked for.
pub open spec fn keys_start() -> KeysModel {
    KeysModel { bindings: Seq::empty(), bad_keys: Seq::empty(), claimed: Seq::empty() }
}

/// The first spelling that the table holds a string under, with the string.
pub open spec fn first_text(lines: Seq<LineModel>, aliases: Seq<Seq<char>>) -> Option<
    (Seq<char>, Seq<char>),
>
    decreases aliases.len(),
{
    if aliases.len() == 0 {
        None
    } else {
        match text_under(lines, aliases[0]) {
            Some(raw) => Some((aliases[0], raw)),
            None => first_text(lines, aliases.drop_first()),
        }
    }
}

impl KeysModel {
    /// One more command: its first spelling in the table gives the binding,
    /// or is reported where it holds no key.
    pub open spec fn command(self, lines: Seq<LineModel>, a: Action) -> KeysModel {
        match first_text(lines, key_aliases(a)) {
            None => self,
            Some((alias, raw)) => match parsed_chord(raw) {
                Some(chord) => KeysModel {
                    bindings: self.bindings.push(
                        BindingModel {
                            context: context_name(home_context(a)),
                            key: raw,
                            action_name: name_of(a),
                            from_wikitui_key: alias,
                        },
                    ),
                    bad_keys: self.bad_keys,
                    claimed: self.claimed.push(alias),
                },
                None => KeysModel {
                    bindings: self.bindings,
                    bad_keys: self.bad_keys.push(
                        alias + " = "@ + debug_quoted(raw) + " (unrecognized key syntax)"@,
                    ),
                    claimed: self.claimed.push(alias),
                },
            },
        }
    }

    /// Commands in order.
    pub open spec fn commands(self, lines: Seq<LineModel>, order: Seq<Action>) -> KeysModel
        decreases order.len(),
    {
        if order.len() == 0 {
            self
        } else {
            self.commands(lines, order.drop_last()).command(lines, order.last())
        }
    }
}

/// What was brought over, and what was not.
#[derive(Debug, Clone)]
pub struct ImportResult {
    pub theme_name: String,
    pub slots: SemanticSlots,
    /// Slot and spelling.
    pub theme_mapped: Vec<(String, String)>,
    pub theme_unmapped: Vec<String>,
    pub keymap_bindings: Vec<MappedBinding>,
    pub keymap_unmapped: Vec<String>,
    pub keymap_bad_keys: Vec<String>,
}

/// An import's contents.
#[verifier::ext_equal]
pub struct ImportModel {
    pub theme_name: Seq<char>,
    pub slots: SemanticSlots,
    pub theme_mapped: Seq<(Seq<char>, Seq<char>)>,
    pub theme_unmapped: Seq<Seq<char>>,
    pub keymap_bindings: Seq<BindingModel>,
    pub keymap_unmapped: Seq<Seq<char>>,
    pub keymap_bad_keys: Seq<Seq<char>>,
}

impl View for ImportResult {
    type V = ImportModel;

    open spec fn view(&self) -> ImportModel {
        ImportModel {
            theme_name: self.theme_name@,
            slots: self.slots,
            theme_mapped: views(self.theme_mapped@),
            theme_unmapped: views(self.theme_unmapped@),
            keymap_bindings: views(self.keymap_bindings@),
            keymap_unmapped: views(self.keymap_unmapped@),
            keymap_bad_keys: views(self.keymap_bad_keys@),
        }
    }
}

/// What a theme table gives.
pub open spec fn theme_of(lines: Option<Seq<LineModel>>) -> ThemeModel {
    match lines {
        Some(lines) => theme_start().slots(lines, slot_order()),
        None => theme_start(),
    }
}

/// What a key table gives.
pub open spec fn keys_of(lines: Option<Seq<LineModel>>) -> KeysModel {
    match lines {
        Some(lines) => keys_start().commands(lines, key_order()),
        None => keys_start(),
    }
}

/// The keys of a table, where there is one, that no spelling claimed.
pub open spec fn left_over(lines: Option<Seq<LineModel>>, claimed: Seq<Seq<char>>) -> Seq<Seq<char>> {
    match lines {
        Some(lines) => unclaimed(lines, claimed),
        None => Seq::empty(),
    }
}

/// What a configuration's entries give.
pub open spec fn imported(entries: Seq<EntryModel>, name_hint: Seq<char>) -> ImportModel {
    let theme = table_under(entries, "theme"@);
    let keys = table_under(entries, "keybindings"@);
    ImportModel {
        theme_name: name_hint,
        slots: theme_of(theme).slots,
        theme_mapped: theme_of(theme).mapped,
        theme_unmapped: left_over(theme, theme_of(theme).claimed),
        keymap_bindings: keys_of(keys).bindings,
        keymap_unmapped: left_over(keys, keys_of(keys).claimed),
        keymap_bad_keys: keys_of(keys).bad_keys,
    }
}

/// The theme so far, with the spellings claimed.
struct ThemeBuild {
    slots: SemanticSlots,
    mapped: Vec<(String, String)>,
    claimed: Vec<String>,
}

impl View for ThemeBuild {
    type V = ThemeModel;

    closed spec fn view(&self) -> ThemeModel {
        ThemeModel { slots: self.slots, mapped: views(self.mapped@), claimed: views(self.claimed@) }
    }
}

fn import_slot(build: &mut ThemeBuild, lines: &Vec<TomlLine>, slot: ThemeSlot)
    ensures
        final(build)@ == old(build)@.slot(lines_model(lines@), slot),
{
    let aliases = slot_spellings(slot);
    let n: usize = aliases.len();
    let mut hit: Option<(&'static str, Color)> = None;
    let ghost before = build@;
    let ghost start = ColorSearch { claimed: before.claimed, hit: None };
    let ghost all = views(aliases@);
    let ghost table = lines_model(lines@);
    for i in 0..n
        invariant
            n == aliases.len(),
            all == views(aliases@),
            table == lines_model(lines@),
            build@.slots == before.slots,
            build@.mapped == before.mapped,
            build@.claimed == start.attempts(table, all.take(i as int)).claimed,
            match hit {
                Some((alias, c)) => start.attempts(table, all.take(i as int)).hit == Some(
                    (alias@, c),
                ),
                None => start.attempts(table, all.take(i as int)).hit is None,
            },
    {
        proof { assert(all.take(i + 1).drop_last() =~= all.take(i as int)); }
        if hit.is_none() {
            if let Some(raw) = line_text(lines, aliases[i]) {
                let ghost pre = build.claimed@;
                build.claimed.push(aliases[i].to_owned());
                proof {
                    assert(views(build.claimed@) =~= views(pre).push(aliases@[i as int]@));
                }
                if let Some(c) = parse_hex_color(raw.as_str()) {
                    hit = Some((aliases[i], c));
                }
            }
        }
    }
    proof { assert(all.take(n as int) =~= all); }
    if let Some((alias, c)) = hit {
        build.slots.set_slot(slot, c);
        let ghost pre = build.mapped@;
        build.mapped.push((slot.name().to_owned(), alias.to_owned()));
        proof {
            assert(views(build.mapped@) =~= views(pre).push((slot_name(slot), alias@)));
        }
    }
    proof { assert(build@ =~= before.slot(table, slot)); }
}

fn import_theme(lines: &Vec<TomlLine>) -> (r: ThemeBuild)
    ensures
        r@ == theme_of(Some(lines_model(lines@))),
{
    let mut build = ThemeBuild {
        slots: SemanticSlots::default(),
        mapped: Vec::new(),
        claimed: Vec::new(),
    };
    let order = slots_in_order();
    let n: usize = order.len();
    proof { assert(build@ =~= theme_start()); }
    for i in 0..n
        invariant
            n == order.len(),
            order@ == slot_order(),
            build@ == theme_start().slots(lines_model(lines@), order@.take(i as int)),
    {
        proof { assert(order@.take(i + 1).drop_last() =~= order@.take(i as int)); }
        import_slot(&mut build, lines, order[i]);
    }
    proof { assert(order@.take(n as int) =~= order@); }
    build
}

/// The keys so far, with the spellings claimed.
struct KeysBuild {
    bindings: Vec<MappedBinding>,
    bad_keys: Vec<String>,
    claimed: Vec<String>,
}

impl View for KeysBuild {
    type V = KeysModel;

    closed spec fn view(&self) -> KeysModel {
        KeysModel {
            bindings: views(self.bindings@),
            bad_keys: views(self.bad_keys@),
            claimed: views(self.claimed@),
        }
    }
}

fn find_text<'a>(lines: &'a Vec<TomlLine>, aliases: &Vec<&'static str>) -> (r: Option<
    (&'static str, &'a String),
>)
    ensures
        match r {
            Some((alias, raw)) => first_text(lines_model(lines@), views(aliases@)) == Some(
                (alias@, raw@),
            ),
            None => first_text(lines_model(lines@), views(aliases@)) is None,
        },
{
    let n: usize = aliases.len();
    let ghost all = views(aliases@);
    let ghost table = lines_model(lines@);
    proof { assert(all.skip(0) =~= all); }
    for i in 0..n
        invariant
            n == aliases.len(),
            all == views(aliases@),
            table == lines_model(lines@),
            first_text(table, all) == first_text(table, all.skip(i as int)),
    {
        proof {
            assert(all.skip(i as int)[0] == aliases@[i as int]@);
            assert(all.skip(i as int).drop_first() =~= all.skip(i + 1));
        }
        if let Some(raw) = line_text(lines, aliases[i]) {
            return Some((aliases[i], raw));
        }
    }
    None
}

fn home(a: Action) -> (r: KeyContext)
    ensures
        r == home_context(a),
{
    let contexts = meta(a).contexts;
    if contexts.len() > 0 {
        contexts[0]
    } else {
        KeyContext::Reading
    }
}

fn import_command(build: &mut KeysBuild, lines: &Vec<TomlLine>, a: Action)
    ensures
        final(build)@ == old(build)@.command(lines_model(lines@), a),
{
    let ghost before = build@;
    let aliases = key_spellings(a);
    if let Some((alias, raw)) = find_text(lines, &aliases) {
        let ghost pre = build.claimed@;
        build.claimed.push(alias.to_owned());
        proof { assert(views(build.claimed@) =~= views(pre).push(alias@)); }
        match Chord::parse(raw.as_str()) {
            Some(_) => {
                let binding = MappedBinding {
                    context: home(a).toml_name(),
                    key: raw.clone(),
                    action_name: a.name(),
                    from_wikitui_key: alias.to_owned(),
                };
                let ghost pre = build.bindings@;
                build.bindings.push(binding);
                proof { assert(views(build.bindings@) =~= views(pre).push(binding@)); }
            },
            None => {
                let mut text = alias.to_owned();
                text.push_str(" = ");
                text.push_str(quoted(raw.as_str()).as_str());
                text.push_str(" (unrecognized key syntax)");
                let ghost pre = build.bad_keys@;
                build.bad_keys.push(text);
                proof { assert(views(build.bad_keys@) =~= views(pre).push(text@)); }
            },
        }
    }
    proof { assert(build@ =~= before.command(lines_model(lines@), a)); }
}

fn import_keys(lines: &Vec<TomlLine>) -> (r: KeysBuild)
    ensures
        r@ == keys_of(Some(lines_model(lines@))),
{
    let mut build = KeysBuild { bindings: Vec::new(), bad_keys: Vec::new(), claimed: Vec::new() };
    let order = keys_in_order();
    let n: usize = order.len();
    proof { assert(build@ =~= keys_start()); }
    for i in 0..n
        invariant
            n == order.len(),
            order@ == key_order(),
            build@ == keys_start().commands(lines_model(lines@), order@.take(i as int)),
    {
        proof { assert(order@.take(i + 1).drop_last() =~= order@.take(i as int)); }
        import_command(&mut build, lines, order[i]);
    }
    proof { assert(order@.take(n as int) =~= order@); }
    build
}

fn has_text(list: &Vec<String>, t: &str) -> (r: bool)
    ensures
        r == views(list@).contains(t@),
{
    let n: usize = list.len();
    for i in 0..n
        invariant
            n == list.len(),
            forall|j: int| 0 <= j < i ==> views(list@)[j] != t@,
    {
        if same_str(list[i].as_str(), t) {
            assert(views(list@)[i as int] == t@);
            return true;
        }
    }
    false
}

fn unclaimed_keys(lines: &Vec<TomlLine>, claimed: &Vec<String>) -> (r: Vec<String>)
    ensures
        views(r@) == unclaimed(lines_model(lines@), views(claimed@)),
{
    let mut out: Vec<String> = Vec::new();
    let n: usize = lines.len();
    let ghost all = lines_model(lines@);
    proof { assert(views(out@) =~= Seq::<Seq<char>>::empty()); }
    for i in 0..n
        invariant
            n == lines.len(),
            all == lines_model(lines@),
            views(out@) == unclaimed(all.take(i as int), views(claimed@)),
    {
        proof {
            assert(all.take(i + 1).drop_last() =~= all.take(i as int));
            assert(all.take(i + 1).last() == lines@[i as int]@);
        }
        if !has_text(claimed, lines[i].key.as_str()) {
            let ghost pre = out@;
            out.push(lines[i].key.clone());
            proof { assert(views(out@) =~= views(pre).push(lines@[i as int].key@)); }
        }
    }
    proof { assert(all.take(n as int) =~= all); }
    out
}

/// Brings a configuration's entries over.
pub fn import_entries(entries: &Vec<TomlEntry>, name_hint: &str) -> (r: ImportResult)
    ensures
        r@ == imported(entries_model(entries@), name_hint@),
{
    let mut result = ImportResult {
        theme_name: name_hint.to_owned(),
        slots: SemanticSlots::default(),
        theme_mapped: Vec::new(),
        theme_unmapped: Vec::new(),
        keymap_bindings: Vec::new(),
        keymap_unmapped: Vec::new(),
        keymap_bad_keys: Vec::new(),
    };
    proof {
        assert(views(result.theme_mapped@) =~= Seq::empty());
        assert(views(result.theme_unmapped@) =~= Seq::empty());
        assert(views(result.keymap_bindings@) =~= Seq::empty());
        assert(views(result.keymap_unmapped@) =~= Seq::empty());
        assert(views(result.keymap_bad_keys@) =~= Seq::empty());
    }
    if let Some(lines) = table_lines(entries, "theme") {
        let build = import_theme(lines);
        result.theme_unmapped = unclaimed_keys(lines, &build.claimed);
        result.slots = build.slots;
        result.theme_mapped = build.mapped;
    }
    if let Some(lines) = table_lines(entries, "keybindings") {
        let build = import_keys(lines);
        result.keymap_unmapped = unclaimed_keys(lines, &build.claimed);
        result.keymap_bindings = build.bindings;
        result.keymap_bad_keys = build.bad_keys;
    }
    result
}

/// Brings a configuration over. A text that is no TOML is an error; a key that
/// is not known is reported in the result.
pub fn import_from_text(wiki_tui_toml: &str, name_hint: &str) -> (r: Result<ImportResult, String>)
    ensures
        match toml_table(wiki_tui_toml@) {
            Ok(entries) => r matches Ok(result) && result@ == imported(entries, name_hint@),
            Err(e) => r matches Err(text) && text@ == "not valid TOML: "@ + e,
        },
{
    match parse_toml(wiki_tui_toml) {
        Ok(entries) => Ok(import_entries(&entries, name_hint)),
        Err(e) => {
            let mut text = "not valid TOML: ".to_owned();
            text.push_str(e.as_str());
            Err(text)
        },
    }
}

/// Some slot goes by that spelling.
pub open spec fn theme_spelling(key: Seq<char>) -> bool {
    exists|slot: ThemeSlot| #[trigger] slot_aliases(slot).contains(key)
}

/// Some command goes by that spelling.
pub open spec fn key_spelling(key: Seq<char>) -> bool {
    exists|a: Action| #[trigger] key_aliases(a).contains(key)
}

/// A key of the theme table that is no known spelling is always reported.
pub proof fn unknown_theme_keys_are_reported(
    entries: Seq<EntryModel>,
    name_hint: Seq<char>,
    lines: Seq<LineModel>,
    i: int,
)
    requires
        table_under(entries, "theme"@) == Some(lines),
        0 <= i < lines.len(),
        !theme_spelling(lines[i].key),
    ensures
        imported(entries, name_hint).theme_unmapped.contains(lines[i].key),
{
    let claimed = theme_of(Some(lines)).claimed;
    lemma_theme_claims(theme_start(), lines, slot_order());
    assert(!claimed.contains(lines[i].key)) by {
        if claimed.contains(lines[i].key) {
            let j = claimed.index_of(lines[i].key);
            assert(theme_spelling(claimed[j]));
        }
    }
    lemma_unclaimed_holds(lines, claimed, i);
}

/// A key of the key table that is no known spelling is always reported.
pub proof fn unknown_keybindings_are_reported(
    entries: Seq<EntryModel>,
    name_hint: Seq<char>,
    lines: Seq<LineModel>,
    i: int,
)
    requires
        table_under(entries, "keybindings"@) == Some(lines),
        0 <= i < lines.len(),
        !key_spelling(lines[i].key),
    ensures
        imported(entries, name_hint).keymap_unmapped.contains(lines[i].key),
{
    let claimed = keys_of(Some(lines)).claimed;
    lemma_key_claims(keys_start(), lines, key_order());
    assert(!claimed.contains(lines[i].key)) by {
        if claimed.contains(lines[i].key) {
            let j = claimed.index_of(lines[i].key);
            assert(key_spelling(claimed[j]));
        }
    }
    lemma_unclaimed_holds(lines, claimed, i);
}

/// A binding that is brought over holds a key that can be read.
pub proof fn imported_keys_can_be_read(lines: Seq<LineModel>, i: int)
    requires
        0 <= i < keys_of(Some(lines)).bindings.len(),
    ensures
        parsed_chord(keys_of(Some(lines)).bindings[i].key) is Some,
{
    lemma_bindings_read(keys_start(), lines, key_order());
}

proof fn lemma_bindings_read(m: KeysModel, lines: Seq<LineModel>, order: Seq<Action>)
    requires
        forall|i: int| 0 <= i < m.bindings.len() ==> parsed_chord((#[trigger] m.bindings[i]).key) is Some,
    ensures
        forall|i: int|
            0 <= i < m.commands(lines, order).bindings.len() ==> parsed_chord(
                (#[trigger] m.commands(lines, order).bindings[i]).key,
            ) is Some,
    decreases order.len(),
{
    if order.len() > 0 {
        lemma_bindings_read(m, lines, order.drop_last());
    }
}

proof fn lemma_unclaimed_holds(lines: Seq<LineModel>, claimed: Seq<Seq<char>>, i: int)
    requires
        0 <= i < lines.len(),
        !claimed.contains(lines[i].key),
    ensures
        unclaimed(lines, claimed).contains(lines[i].key),
    decreases lines.len(),
{
    let before = unclaimed(lines.drop_last(), claimed);
    let all = unclaimed(lines, claimed);
    if i == lines.len() - 1 {
        assert(all[all.len() - 1] == lines[i].key);
    } else {
        lemma_unclaimed_holds(lines.drop_last(), claimed, i);
        let j = before.index_of(lines[i].key);
        assert(all[j] == lines[i].key);
    }
}

proof fn lemma_search_claims(s: ColorSearch, lines: Seq<LineModel>, aliases: Seq<Seq<char>>)
    requires
        forall|i: int| 0 <= i < s.claimed.len() ==> theme_spelling(#[trigger] s.claimed[i]),
        forall|i: int| 0 <= i < aliases.len() ==> theme_spelling(#[trigger] aliases[i]),
    ensures
        forall|i: int|
            0 <= i < s.attempts(lines, aliases).claimed.len() ==> theme_spelling(
                #[trigger] s.attempts(lines, aliases).claimed[i],
            ),
    decreases aliases.len(),
{
    if aliases.len() > 0 {
        lemma_search_claims(s, lines, aliases.drop_last());
        assert(theme_spelling(aliases[aliases.len() - 1]));
    }
}

proof fn lemma_theme_claims(m: ThemeModel, lines: Seq<LineModel>, order: Seq<ThemeSlot>)
    requires
        forall|i: int| 0 <= i < m.claimed.len() ==> theme_spelling(#[trigger] m.claimed[i]),
    ensures
        forall|i: int|
            0 <= i < m.slots(lines, order).claimed.len() ==> theme_spelling(
                #[trigger] m.slots(lines, order).claimed[i],
            ),
    decreases order.len(),
{
    if order.len() > 0 {
        lemma_theme_claims(m, lines, order.drop_last());
        let before = m.slots(lines, order.drop_last());
        let aliases = slot_aliases(order.last());
        assert forall|i: int| 0 <= i < aliases.len() implies theme_spelling(#[trigger] aliases[i]) by {
            assert(slot_aliases(order.last()).contains(aliases[i]));
        }
        lemma_search_claims(
            ColorSearch { claimed: before.claimed, hit: None },
            lines,
            aliases,
        );
    }
}

proof fn lemma_first_text_alias(lines: Seq<LineModel>, aliases: Seq<Seq<char>>)
    ensures
        match first_text(lines, aliases) {
            Some((alias, raw)) => aliases.contains(alias),
            None => true,
        },
    decreases aliases.len(),
{
    if aliases.len() > 0 {
        lemma_first_text_alias(lines, aliases.drop_first());
        match first_text(lines, aliases) {
            Some((alias, raw)) => {
                if alias == aliases[0] {
                    assert(aliases.contains(aliases[0]));
                } else {
                    let j = aliases.drop_first().index_of(alias);
                    assert(aliases[j + 1] == alias);
                }
            },
            None => {},
        }
    }
}

proof fn lemma_key_claims(m: KeysModel, lines: Seq<LineModel>, order: Seq<Action>)
    requires
        forall|i: int| 0 <= i < m.claimed.len() ==> key_spelling(#[trigger] m.claimed[i]),
    ensures
        forall|i: int|
            0 <= i < m.commands(lines, order).claimed.len() ==> key_spelling(
                #[trigger] m.commands(lines, order).claimed[i],
            ),
    decreases order.len(),
{
    if order.len() > 0 {
        lemma_key_claims(m, lines, order.drop_last());
        let a = order.last();
        let before = m.commands(lines, order.drop_last());
        let after = before.command(lines, a);
        assert(after == m.commands(lines, order));
        lemma_first_text_alias(lines, key_aliases(a));
        match first_text(lines, key_aliases(a)) {
            Some((alias, raw)) => {
                assert(key_aliases(a).contains(alias));
                assert(key_spelling(alias));
                assert(after.claimed == before.claimed.push(alias));
            },
            None => {
                assert(after == before);
            },
        }
        assert forall|i: int| 0 <= i < after.claimed.len() implies key_spelling(
            #[trigger] after.claimed[i],
        ) by {
            if i < before.claimed.len() {
                assert(after.claimed[i] == before.claimed[i]);
            }
        }
    }
}

} // verus!
