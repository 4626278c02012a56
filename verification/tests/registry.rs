use std::collections::HashSet;
use wikitui::registry::{
    commands, meta, palette_matches, picker_help, reading_help, reading_help_order, Action, Chord,
    ChordCode, Key, KeyContext, Keymap, DEFAULT_LEADER,
};

/// How well `query` matches a label: every character in order, in any case,
/// the better the more of them start a word.
fn rank(label: &str, query: &str) -> Option<u64> {
    let mut wanted = query.chars().flat_map(char::to_lowercase).peekable();
    let mut score = 1000;
    let mut before = ' ';
    for c in label.chars().flat_map(char::to_lowercase) {
        if wanted.peek() == Some(&c) {
            wanted.next();
            score += if before == ' ' { 100 } else { 0 };
        } else {
            score -= 1;
        }
        before = c;
    }
    if wanted.peek().is_some() {
        None
    } else {
        Some(score)
    }
}

fn ranks(query: &str) -> Vec<Option<u64>> {
    commands().iter().map(|m| rank(m.display, query)).collect()
}

#[test]
fn vim_keymap_reproduces_the_key_existing_bindings() {
    let km = Keymap::vim();

    assert_eq!(km.resolve(KeyContext::Reading, &Chord::ch('j')), Some(Action::ScrollDown));
    assert_eq!(km.resolve(KeyContext::Reading, &Chord::key(ChordCode::Down)), Some(Action::ScrollDown));
    assert_eq!(km.resolve(KeyContext::Reading, &Chord::ch('k')), Some(Action::ScrollUp));
    assert_eq!(
        km.resolve(KeyContext::Reading, &Chord::ctrl_ch('d')),
        Some(Action::HalfPageDown)
    );
    assert_eq!(km.resolve(KeyContext::Reading, &Chord::ctrl_ch('u')), Some(Action::HalfPageUp));
    assert_eq!(km.resolve(KeyContext::Reading, &Chord::ch(' ')), Some(Action::PageDown));
    assert_eq!(
        km.resolve(KeyContext::Reading, &Chord::prefixed('g', 'g')),
        Some(Action::ScrollTop)
    );
    assert_eq!(km.resolve(KeyContext::Reading, &Chord::ch('G')), Some(Action::ScrollBottom));

    assert_eq!(km.resolve(KeyContext::Reading, &Chord::key(ChordCode::Tab)), Some(Action::LinkCycleNext));
    assert_eq!(
        km.resolve(KeyContext::Reading, &Chord::key(ChordCode::BackTab)),
        Some(Action::LinkCyclePrev)
    );
    assert_eq!(km.resolve(KeyContext::Reading, &Chord::key(ChordCode::Enter)), Some(Action::FollowLink));
    assert_eq!(km.resolve(KeyContext::Reading, &Chord::ch('f')), Some(Action::LinkHints));
    assert_eq!(km.resolve(KeyContext::Reading, &Chord::ch('H')), Some(Action::Back));
    assert_eq!(km.resolve(KeyContext::Reading, &Chord::ch('L')), Some(Action::Forward));
    assert_eq!(
        km.resolve(KeyContext::Reading, &Chord::ctrl_ch('h')),
        Some(Action::ReadingHistory)
    );

    assert_eq!(
        km.resolve(KeyContext::Reading, &Chord::prefixed('g', 't')),
        Some(Action::NextTab)
    );
    assert_eq!(
        km.resolve(KeyContext::Reading, &Chord::prefixed('g', 'T')),
        Some(Action::PrevTab)
    );
    assert_eq!(
        km.resolve(KeyContext::Reading, &Chord::prefixed('b', 'b')),
        Some(Action::TabPicker)
    );

    assert_eq!(km.resolve(KeyContext::Reading, &Chord::ch('t')), Some(Action::Toc));
    assert_eq!(km.resolve(KeyContext::Reading, &Chord::ch('T')), Some(Action::TalkToggle));
    assert_eq!(km.resolve(KeyContext::Reading, &Chord::ctrl_ch('t')), Some(Action::CycleTheme));
    assert_eq!(km.resolve(KeyContext::Reading, &Chord::ch('/')), Some(Action::Search));
    assert_eq!(km.resolve(KeyContext::Reading, &Chord::ch(':')), Some(Action::CommandLine));
    assert_eq!(km.resolve(KeyContext::Reading, &Chord::ch('m')), Some(Action::BookmarkToggle));
    assert_eq!(km.resolve(KeyContext::Reading, &Chord::ch('S')), Some(Action::SaveOffline));
    assert_eq!(
        km.resolve(KeyContext::Reading, &Chord::prefixed('g', 'r')),
        Some(Action::RandomArticle)
    );
    assert_eq!(
        km.resolve(KeyContext::Reading, &Chord::prefixed('r', 'l')),
        Some(Action::ReadLater)
    );
    assert_eq!(km.resolve(KeyContext::Reading, &Chord::ctrl_ch('f')), Some(Action::FindInPage));
    assert_eq!(km.resolve(KeyContext::Reading, &Chord::prefixed('g', 'h')), Some(Action::Home));
    assert_eq!(km.resolve(KeyContext::Reading, &Chord::ch('q')), Some(Action::CloseTab));
    assert_eq!(km.resolve(KeyContext::Reading, &Chord::ch('Q')), Some(Action::Quit));
    assert_eq!(km.resolve(KeyContext::Reading, &Chord::ch('i')), Some(Action::Info));

    assert_eq!(km.resolve(KeyContext::Reading, &Chord::ch('K')), Some(Action::Peek));
    assert_eq!(
        km.resolve(KeyContext::Reading, &Chord::prefixed('z', 'z')),
        Some(Action::IncognitoToggle)
    );
    assert_eq!(
        km.resolve(KeyContext::Reading, &Chord::prefixed('z', 'a')),
        Some(Action::FoldToggle)
    );
    assert_eq!(
        km.resolve(KeyContext::Reading, &Chord::prefixed('z', 'M')),
        Some(Action::FoldAll)
    );
    assert_eq!(
        km.resolve(KeyContext::Reading, &Chord::prefixed('z', 'R')),
        Some(Action::UnfoldAll)
    );
    assert_eq!(
        km.resolve(KeyContext::Reading, &Chord::prefixed('g', 'K')),
        Some(Action::JumpReferences)
    );
    assert_eq!(km.label_for(KeyContext::Reading, Action::Split), "\u{2014}");

    assert_eq!(km.resolve(KeyContext::Reading, &Chord::ch('?')), Some(Action::Help));
    assert_eq!(km.resolve(KeyContext::Reading, &Chord::ctrl_ch('p')), Some(Action::Palette));
    assert_eq!(km.resolve(KeyContext::Picker, &Chord::ch('?')), Some(Action::Help));

    assert_eq!(km.resolve(KeyContext::Picker, &Chord::ch('j')), Some(Action::MoveDown));
    assert_eq!(km.resolve(KeyContext::Picker, &Chord::key(ChordCode::Enter)), Some(Action::Select));
    assert_eq!(km.resolve(KeyContext::Picker, &Chord::key(ChordCode::Esc)), Some(Action::Close));
}

#[test]
fn every_action_has_exactly_one_metadata_row() {
    let mut names = HashSet::new();
    for m in commands() {
        assert_eq!(meta(m.action).name, m.name);
        assert!(names.insert(m.name), "duplicate command name {}", m.name);
        assert!(!m.help.is_empty(), "{} has no help", m.name);
    }
}

#[test]
fn ux6_additions_are_reachable_from_the_palette_and_reading_help() {
    let km = Keymap::vim();
    for (query, action) in [
        ("Peek", Action::Peek),
        ("Toggle incognito", Action::IncognitoToggle),
        ("Fold/unfold", Action::FoldToggle),
        ("Fold all", Action::FoldAll),
        ("Unfold all", Action::UnfoldAll),
        ("Jump to references", Action::JumpReferences),
        ("Split view", Action::Split),
        ("Prefetch log", Action::PrefetchLogOpen),
        ("Interests", Action::InterestsOpen),
        ("Reading stats", Action::StatsOpen),
        ("Named sessions", Action::SessionsList),
    ] {
        let rows = palette_matches(&km, KeyContext::Reading, &ranks(query));
        assert!(
            rows.iter().any(|r| r.action == action),
            "{query:?} should surface {action:?} in the palette: {rows:?}"
        );
    }

    let help = reading_help(&km);
    assert!(
        help.iter()
            .any(|r| r.key == "K" && r.help.contains("preview")),
        "Peek missing from reading help: {help:?}"
    );
    assert!(
        help.iter().any(|r| r.key == "zz"),
        "zz (incognito) missing from reading help: {help:?}"
    );
    assert!(
        help.iter().any(|r| r.key == "gK"),
        "gK (jump references) missing from reading help: {help:?}"
    );
    assert!(
        help.iter()
            .any(|r| r.help.contains("split") && r.key == "\u{2014}"),
        "split should appear, keyless, in reading help: {help:?}"
    );
}

#[test]
fn research_help_documents_that_r_is_a_chord_not_a_plain_key() {
    let help = Action::Research.help();
    assert!(
        help.contains("rl"),
        "Research's help must mention the rl read-later chord: {help:?}"
    );
}

#[test]
fn user_keymap_toml_adds_and_overrides_bindings() {
    let mut km = Keymap::vim();
    let warnings = km.apply_user_toml(
        r#"
        [reading]
        J = "scroll-down"
        k = "scroll-bottom"

        [global]
        "Ctrl-e" = "cycle-theme"
        "#,
    );
    assert!(
        warnings.is_empty(),
        "clean file warns nothing: {warnings:?}"
    );
    assert_eq!(
        km.runtime_action(KeyContext::Reading, &Chord::ch('J')),
        Some(Action::ScrollDown)
    );
    assert_eq!(km.resolve(KeyContext::Reading, &Chord::ch('J')), Some(Action::ScrollDown));
    assert_eq!(km.resolve(KeyContext::Reading, &Chord::ch('k')), Some(Action::ScrollBottom));
    assert_eq!(km.resolve(KeyContext::Reading, &Chord::ctrl_ch('e')), Some(Action::CycleTheme));
}

#[test]
fn leader_key_defaults_to_comma_with_builtin_bindings() {
    let km = Keymap::vim();
    assert_eq!(km.leader_key(), ',');
    assert_eq!(km.leader_action(&Chord::ch('t')), Some(Action::Toc));
    assert_eq!(km.leader_action(&Chord::ch('w')), Some(Action::WatchToggle));
    assert_eq!(km.leader_action(&Chord::ch('X')), None);
}

#[test]
fn keymap_toml_configures_leader_key_and_bindings() {
    let mut km = Keymap::vim();
    let warnings = km.apply_user_toml(
        r#"
        leader-key = ";"

        [leader]
        g = "stats-open"
        t = "today"
        "#,
    );
    assert!(warnings.is_empty(), "clean leader config: {warnings:?}");
    assert_eq!(km.leader_key(), ';');
    assert_eq!(km.leader_action(&Chord::ch('g')), Some(Action::StatsOpen));
    assert_eq!(km.leader_action(&Chord::ch('t')), Some(Action::Today));
}

#[test]
fn override_add_and_remove_round_trips() {
    let mut km = Keymap::vim();
    assert_eq!(km.runtime_action(KeyContext::Reading, &Chord::ch('J')), None);
    km.apply_override(KeyContext::Reading, Chord::ch('J'), Action::ScrollBottom);
    assert_eq!(
        km.runtime_action(KeyContext::Reading, &Chord::ch('J')),
        Some(Action::ScrollBottom)
    );
    assert!(km.remove_override(KeyContext::Reading, &Chord::ch('J')));
    assert_eq!(km.runtime_action(KeyContext::Reading, &Chord::ch('J')), None);
    assert!(!km.remove_override(KeyContext::Reading, &Chord::ch('J')));
    km.set_leader_binding(Chord::ch('q'), Action::Quit);
    assert_eq!(km.leader_action(&Chord::ch('q')), Some(Action::Quit));
    assert!(km.remove_leader_binding(&Chord::ch('q')));
    assert!(!km.remove_leader_binding(&Chord::ch('q')));
}

#[test]
fn keymap_toml_warns_and_skips_bad_lines_without_crashing() {
    let mut km = Keymap::vim();
    let warnings = km.apply_user_toml(
        r#"
        [bogus]
        x = "scroll-down"

        [reading]
        "???nope" = "scroll-down"
        j = "not-a-command"
        "#,
    );
    assert_eq!(warnings.len(), 3, "each bad line warns once: {warnings:?}");
    assert_eq!(
        km.resolve(KeyContext::Reading, &Chord::ch('j')),
        Some(Action::ScrollDown)
    );
}

#[test]
fn emacs_preset_resolves_its_covered_keys() {
    let km = Keymap::emacs();
    assert_eq!(
        km.runtime_action(KeyContext::Reading, &Chord::ctrl_ch('n')),
        Some(Action::ScrollDown)
    );
    assert_eq!(km.resolve(KeyContext::Reading, &Chord::ctrl_ch('n')), Some(Action::ScrollDown));
    assert_eq!(km.resolve(KeyContext::Reading, &Chord::ctrl_ch('v')), Some(Action::PageDown));
    assert_eq!(km.resolve(KeyContext::Reading, &Chord::ctrl_ch('s')), Some(Action::Search));
    assert_eq!(km.resolve(KeyContext::Reading, &Chord::ch('Q')), Some(Action::Quit));
    assert_eq!(
        km.resolve(KeyContext::Reading, &Chord::prefixed('g', 't')),
        Some(Action::NextTab)
    );
    assert_eq!(Keymap::vim().runtime_action(KeyContext::Reading, &Chord::ch('j')), None);
}

#[test]
fn palette_filters_by_context_and_fuzzy_query() {
    let km = Keymap::vim();
    let rows = palette_matches(&km, KeyContext::Reading, &ranks("toc"));
    assert!(
        rows.iter().any(|r| r.action == Action::Toc),
        "toc present: {rows:?}"
    );
    assert_eq!(rows[0].action, Action::Toc, "best match ranks first");
    assert_eq!(rows[0].key, "t");

    let picker = palette_matches(&km, KeyContext::Picker, &ranks("toc"));
    assert!(!picker.iter().any(|r| r.action == Action::Toc));

    for r in palette_matches(&km, KeyContext::Reading, &ranks("")) {
        assert!(meta(r.action).in_palette);
        assert!(r.action.applies_in(KeyContext::Reading));
    }
}

#[test]
fn reading_help_is_generated_from_registry_and_keymap() {
    let km = Keymap::vim();
    let rows = reading_help(&km);
    let scroll = rows
        .iter()
        .find(|r| r.help == Action::ScrollDown.help())
        .expect("scroll-down row present");
    assert!(scroll.key.contains('j'), "shows the j key: {}", scroll.key);
    let mut km2 = Keymap::vim();
    km2.apply_override(KeyContext::Reading, Chord::ch('J'), Action::ScrollDown);
    let rows2 = reading_help(&km2);
    let scroll2 = rows2
        .iter()
        .find(|r| r.help == Action::ScrollDown.help())
        .unwrap();
    assert!(
        scroll2.key.contains('J'),
        "remap shows up in help: {}",
        scroll2.key
    );
}

#[test]
fn chord_labels_and_parsing_round_trip_for_the_common_forms() {
    for (s, chord) in [
        ("j", Chord::ch('j')),
        ("Ctrl-d", Chord::ctrl_ch('d')),
        ("Space", Chord::ch(' ')),
        ("Tab", Chord::key(ChordCode::Tab)),
        ("gg", Chord::prefixed('g', 'g')),
        ("gT", Chord::prefixed('g', 'T')),
        ("Enter", Chord::key(ChordCode::Enter)),
    ] {
        assert_eq!(Chord::parse(s), Some(chord.clone()), "parse {s:?}");
    }
    assert_eq!(Chord::ctrl_ch('d').label(), "Ctrl-d");
    assert_eq!(Chord::prefixed('g', 'g').label(), "gg");
    assert_eq!(Chord::ch(' ').label(), "Space");
    assert_eq!(Chord::parse(""), None);
}

#[test]
fn from_key_maps_crossterm_events_to_single_key_chords() {
    assert_eq!(
        Chord::from_key(Key::Code(ChordCode::Char('j')), false),
        Some(Chord::ch('j'))
    );
    assert_eq!(
        Chord::from_key(Key::Code(ChordCode::Char('d')), true),
        Some(Chord::ctrl_ch('d'))
    );
    assert_eq!(
        Chord::from_key(Key::Code(ChordCode::Enter), true),
        Some(Chord::ctrl_code(ChordCode::Enter))
    );
    assert_eq!(Chord::from_key(Key::Other, true), None);
}

#[test]
fn labels_are_read_back_but_for_the_arrows() {
    for chord in [
        Chord::ch('x'),
        Chord::ch(' '),
        Chord::ctrl_ch(' '),
        Chord::ctrl_ch('x'),
        Chord::prefixed('z', 'R'),
        Chord::key(ChordCode::BackTab),
        Chord::ctrl_code(ChordCode::Backspace),
        Chord::key(ChordCode::Esc),
    ] {
        assert_eq!(Chord::parse(&chord.label()), Some(chord));
    }
    assert_eq!(Chord::key(ChordCode::Up).label(), "\u{2191}");
    assert_eq!(Chord::parse("\u{2191}"), Some(Chord::ch('\u{2191}')));
    assert_eq!(Chord::parse("Up"), Some(Chord::key(ChordCode::Up)));
}

#[test]
fn every_written_key_name_is_known() {
    for (s, code) in [
        ("Return", ChordCode::Enter),
        ("CR", ChordCode::Enter),
        ("S-Tab", ChordCode::BackTab),
        ("Shift-Tab", ChordCode::BackTab),
        ("Escape", ChordCode::Esc),
        ("Down", ChordCode::Down),
        ("Left", ChordCode::Left),
        ("Right", ChordCode::Right),
        ("BS", ChordCode::Backspace),
        ("space", ChordCode::Char(' ')),
    ] {
        assert_eq!(Chord::parse(s), Some(Chord::key(code)));
        assert_eq!(Chord::parse(&format!("C-{s}")), Some(Chord::ctrl_code(code)));
        assert_eq!(Chord::parse(&format!(" ctrl-{s} ")), Some(Chord::ctrl_code(code)));
    }
    assert_eq!(Chord::parse("xy"), None);
    assert_eq!(Chord::parse("Ctrl-"), None);
    assert_eq!(Chord::parse("Ctrl-gg"), None);
}

#[test]
fn every_warning_of_a_keymap_file_has_its_words() {
    let mut km = Keymap::vim();
    let warnings = km.apply_user_toml(
        "leader-key = \"ab\"\nreading = 3\n[leader]\n\"xyz\" = \"toc\"\nq = \"no\"\n[picker]\nj = 1\nk = \"no\"\n\"xyz\" = \"toc\"\n[nowhere]\n",
    );
    assert_eq!(
        warnings,
        vec![
            "keymap.toml: [leader] q -> unknown command — ignored",
            "keymap.toml: [leader] \"xyz\" is not a recognizable key — ignored",
            "keymap.toml: leader-key must be a single-character string",
            "keymap.toml: unknown context [nowhere] — ignored (try: global, reading, startpage, picker, search, leader)",
            "keymap.toml: [picker] j must map to a command name string",
            "keymap.toml: [picker] k -> unknown command \"no\" — ignored",
            "keymap.toml: [picker] \"xyz\" is not a recognizable key — ignored",
            "keymap.toml: [reading] must be a table of key = command",
        ]
    );
    assert_eq!(km.leader_key(), DEFAULT_LEADER);
    assert_eq!(
        Keymap::vim().apply_user_toml("leader = 1"),
        vec!["keymap.toml: [leader] must be a table of key = command"]
    );
    let broken = Keymap::vim().apply_user_toml("not [ toml");
    assert_eq!(broken.len(), 1);
    assert!(broken[0].starts_with("keymap.toml is not valid TOML: "));
    let mut spaced = Keymap::vim();
    assert!(spaced.apply_user_toml("leader-key = \"Space\"").is_empty());
    assert_eq!(spaced.leader_key(), ' ');
}

#[test]
fn a_global_binding_reaches_a_view_that_has_none() {
    let mut km = Keymap::default();
    assert_eq!(km.leader_key(), '\0');
    km.apply_override(KeyContext::Global, Chord::ch('x'), Action::Help);
    assert_eq!(km.resolve(KeyContext::Search, &Chord::ch('x')), Some(Action::Help));
    km.apply_override(KeyContext::Search, Chord::ch('x'), Action::Close);
    assert_eq!(km.resolve(KeyContext::Search, &Chord::ch('x')), Some(Action::Close));
    assert_eq!(km.resolve(KeyContext::Picker, &Chord::ch('x')), Some(Action::Help));
}

#[test]
fn the_presets_are_known_by_name() {
    let chord = Chord::ctrl_ch('n');
    assert_eq!(
        Keymap::preset("emacs").resolve(KeyContext::Reading, &chord),
        Some(Action::ScrollDown)
    );
    assert_eq!(Keymap::preset("other").resolve(KeyContext::Reading, &chord), None);
}

#[test]
fn the_keys_of_an_action_stand_in_the_order_of_their_labels() {
    let km = Keymap::vim();
    assert_eq!(km.label_for(KeyContext::Reading, Action::ScrollDown), "j/\u{2193}");
    assert_eq!(
        km.bindings_for(KeyContext::Picker, Action::Help),
        vec![Chord::ch('?')]
    );
    assert_eq!(reading_help(&km).len(), reading_help_order().len());
    let keys: Vec<String> = picker_help(&km).into_iter().map(|r| r.key).collect();
    assert_eq!(keys, vec!["j/\u{2193}", "k/\u{2191}", "Enter", "?", "Esc"]);
}

#[test]
fn an_action_is_found_by_its_own_name() {
    for m in commands() {
        assert_eq!(Action::by_name(m.name), Some(m.action));
    }
    assert_eq!(Action::by_name("no-such-action"), None);
    assert_eq!(commands().len(), 73);
}

#[test]
fn the_leader_key_takes_no_binding_away() {
    for ctx in [KeyContext::Global, KeyContext::Reading, KeyContext::Picker] {
        assert_eq!(Keymap::vim().resolve(ctx, &Chord::ch(DEFAULT_LEADER)), None);
        assert_eq!(Keymap::emacs().resolve(ctx, &Chord::ch(DEFAULT_LEADER)), None);
    }
}

#[test]
fn keys_are_listed_where_they_lead() {
    let mut km = Keymap::emacs();
    for action in [Action::ScrollDown, Action::Search, Action::Help, Action::Quit] {
        for chord in km.bindings_for(KeyContext::Reading, action) {
            assert_eq!(km.resolve(KeyContext::Reading, &chord), Some(action));
        }
    }
    km.apply_override(KeyContext::Reading, Chord::ch('j'), Action::ScrollUp);
    assert_eq!(km.label_for(KeyContext::Reading, Action::ScrollUp), "j/k/\u{2191}");
    assert_eq!(km.resolve(KeyContext::Reading, &Chord::ch('j')), Some(Action::ScrollUp));
    assert_eq!(km.label_for(KeyContext::Reading, Action::ScrollDown), "Ctrl-n/\u{2193}");
}

#[test]
fn a_rebound_key_leaves_the_help_row_it_was_in() {
    let mut km = Keymap::vim();
    km.apply_override(KeyContext::Reading, Chord::ch('j'), Action::ScrollBottom);
    let sheet = reading_help(&km);
    let row = |a: Action| sheet.iter().find(|r| r.help == a.help()).unwrap();
    assert_eq!(row(Action::ScrollDown).key, "\u{2193}");
    assert_eq!(row(Action::ScrollBottom).key, "G/j");
    km.apply_override(KeyContext::Reading, Chord::key(ChordCode::Down), Action::ScrollBottom);
    assert_eq!(km.label_for(KeyContext::Reading, Action::ScrollDown), "\u{2014}");
}
