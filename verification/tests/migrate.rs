use wikitui::migrate::{
    import_from_text, keymap_file_name, numbered_name, parse_hex_color, render_keymap_toml,
    render_theme_toml, source_file, summarize, unique_choice, Color, MappedBinding, SemanticSlots,
    Source, Written,
};
use wikitui::registry::{Action, Chord, KeyContext, Keymap};

const SAMPLE_WIKI_TUI_CONFIG: &str = r##"
    [settings]
    language = "en"

    [theme]
    background = "#1e1e1e"
    foreground = "#c8ccd4"
    title = "#61afef"
    search_match = "#e5c07b"
    disabled = "#5c6370"
    some_unknown_theme_key = "#ff00ff"

    [keybindings]
    up = "k"
    down = "j"
    select = "Enter"
    back = "Backspace"
    search = "/"
    toggle_help = "?"
    quit = "q"
    some_unknown_action = "z"
"##;

#[test]
fn maps_known_theme_keys_and_warns_on_unmapped() {
    let result = import_from_text(SAMPLE_WIKI_TUI_CONFIG, "wiki-tui-import").unwrap();
    assert_eq!(result.slots.bg, Some(Color::Rgb(0x1e, 0x1e, 0x1e)));
    assert_eq!(result.slots.fg, Some(Color::Rgb(0xc8, 0xcc, 0xd4)));
    assert_eq!(result.slots.accent, Some(Color::Rgb(0x61, 0xaf, 0xef)));
    assert_eq!(result.slots.link, Some(Color::Rgb(0x61, 0xaf, 0xef)));
    assert_eq!(result.slots.match_fg, Some(Color::Rgb(0xe5, 0xc0, 0x7b)));
    assert_eq!(result.slots.dim, Some(Color::Rgb(0x5c, 0x63, 0x70)));
    assert!(
        result
            .theme_unmapped
            .contains(&"some_unknown_theme_key".to_string())
    );
    assert!(!result.theme_mapped.is_empty());
}

#[test]
fn maps_known_keybindings_and_warns_on_unmapped() {
    let result = import_from_text(SAMPLE_WIKI_TUI_CONFIG, "wiki-tui-import").unwrap();
    let find = |action: &str| {
        result
            .keymap_bindings
            .iter()
            .find(|b| b.action_name == action)
    };
    assert_eq!(find("scroll-up").unwrap().key, "k");
    assert_eq!(find("scroll-down").unwrap().key, "j");
    assert_eq!(find("follow-link").unwrap().key, "Enter");
    assert_eq!(find("history-back").unwrap().key, "Backspace");
    assert_eq!(find("search").unwrap().key, "/");
    assert_eq!(find("help").unwrap().key, "?");
    assert_eq!(find("quit").unwrap().key, "q");
    assert!(
        result
            .keymap_unmapped
            .contains(&"some_unknown_action".to_string())
    );
}

#[test]
fn a_config_with_neither_table_still_imports_cleanly() {
    let result = import_from_text("[settings]\nlanguage = \"en\"\n", "empty").unwrap();
    assert!(result.theme_mapped.is_empty());
    assert!(result.keymap_bindings.is_empty());
}

#[test]
fn bad_toml_is_an_error_not_a_panic() {
    assert!(import_from_text("not [ valid toml", "x").is_err());
}

#[test]
fn rendered_keymap_toml_round_trips_through_the_registry_parser() {
    let result = import_from_text(SAMPLE_WIKI_TUI_CONFIG, "wiki-tui-import").unwrap();
    let rendered = render_keymap_toml(&result.keymap_bindings);
    let mut km = Keymap::vim();
    let warnings = km.apply_user_toml(&rendered);
    assert!(warnings.is_empty(), "unexpected warnings: {warnings:?}");
    assert_eq!(
        km.runtime_action(KeyContext::Reading, &Chord::ch('k')),
        Some(Action::ScrollUp)
    );
    assert_eq!(
        km.runtime_action(KeyContext::Reading, &Chord::ch('q')),
        Some(Action::Quit)
    );
}

#[test]
fn a_theme_file_names_the_colours_that_are_set() {
    let slots = SemanticSlots {
        bg: Some(Color::Rgb(0x1e, 0x02, 0xff)),
        dim: Some(Color::Rgb(0, 0, 0)),
        ..SemanticSlots::default()
    };
    let text = render_theme_toml("night", &slots);
    assert_eq!(
        text,
        "# Imported from a wiki-tui config (PRD FR-TH-8).\n\
         # Review the colors below — derived slots are filled in automatically\n\
         # when this file loads (see the [colors] schema in the wikitui docs).\n\
         [meta]\nname = \"night\"\n\n[colors]\nbg = \"#1E02FF\"\ndim = \"#000000\"\n"
    );
    assert_eq!(parse_hex_color("#1E02FF"), slots.bg);
}

#[test]
fn colours_are_six_digits_after_a_hash() {
    assert_eq!(parse_hex_color("#aB0019"), Some(Color::Rgb(0xab, 0, 0x19)));
    for bad in ["aB0019", "#aB001", "#aB00190", "#aB001g", ""] {
        assert_eq!(parse_hex_color(bad), None);
    }
}

#[test]
fn a_bad_colour_gives_way_to_the_next_spelling() {
    let r = import_from_text("[theme]\nforeground = \"red\"\nfg = \"#010203\"\n", "x").unwrap();
    assert_eq!(r.slots.fg, Some(Color::Rgb(1, 2, 3)));
    assert_eq!(r.theme_mapped, vec![("fg".to_string(), "fg".to_string())]);
    assert!(r.theme_unmapped.is_empty());
    assert_eq!(r.slots.heading, None);
}

#[test]
fn an_unreadable_key_is_reported() {
    let r = import_from_text("[keybindings]\nup = \"xyz\"\nmove_up = \"k\"\n", "x").unwrap();
    assert!(r.keymap_bindings.is_empty());
    assert_eq!(r.keymap_bad_keys, vec!["up = \"xyz\" (unrecognized key syntax)"]);
    assert_eq!(r.keymap_unmapped, vec!["move_up"]);
}

#[test]
fn bad_toml_says_so() {
    let e = import_from_text("not [ valid toml", "x").unwrap_err();
    assert!(e.starts_with("not valid TOML: "));
}

#[test]
fn a_summary_tells_what_came_over() {
    let result = import_from_text(SAMPLE_WIKI_TUI_CONFIG, "wiki-tui-import").unwrap();
    let written = Written {
        result,
        theme_path: "t.toml".to_string(),
        keymap_path: "k.toml".to_string(),
        keymap_renamed: true,
    };
    let summary = summarize(&written);
    assert!(summary.starts_with("Imported theme -> t.toml\n  [theme] background -> bg\n"));
    assert!(summary.contains("  [theme] some_unknown_theme_key: not recognized"));
    assert!(summary.contains(
        "Imported keymap -> k.toml (keymap.toml already existed — merge by hand)\n"
    ));
    assert!(summary.contains("  [keybindings] up = \"k\" -> scroll-up (reading)\n"));
    assert!(summary.contains("  [keybindings] some_unknown_action: not recognized — not imported\n"));
    assert!(summary.ends_with(
        "\nRun `:theme wiki-tui-import` to try it; `wikitui config doctor` re-checks its contrast.\n"
    ));
}

#[test]
fn files_that_are_there_are_not_written_over() {
    assert_eq!(keymap_file_name(false), "keymap.toml");
    assert_eq!(keymap_file_name(true), "keymap.from-wiki-tui.toml");
    assert_eq!(unique_choice(&vec![false]), Some(0));
    assert_eq!(unique_choice(&vec![true, true, false, false]), Some(2));
    assert_eq!(unique_choice(&vec![true; 1000]), None);
    assert_eq!(numbered_name("night", ".toml", 12), "night-12.toml");
}

#[test]
fn a_source_that_cannot_be_read_is_named() {
    assert_eq!(source_file("d", true, true, false), Ok(Source::ConfigInDirectory));
    assert_eq!(
        source_file("d", true, false, false),
        Err("d is a directory with no config.toml in it".to_string())
    );
    assert_eq!(source_file("f", false, false, true), Ok(Source::File));
    assert_eq!(source_file("f", false, false, false), Err("f does not exist".to_string()));
}

#[test]
fn a_keymap_file_lists_its_contexts_in_order() {
    let binding = |context, key: &str, action_name, from: &str| MappedBinding {
        context,
        key: key.to_string(),
        action_name,
        from_wikitui_key: from.to_string(),
    };
    let text = render_keymap_toml(&vec![
        binding("reading", "k", "scroll-up", "up"),
        binding("global", "?", "help", "toggle_help"),
    ]);
    assert_eq!(
        text,
        "# Imported from a wiki-tui config (PRD FR-TH-8).\n\
         # Unmapped wiki-tui bindings are listed in the import summary, not here.\n\n\
         [global]\n\"?\" = \"help\"\n\n[reading]\n\"k\" = \"scroll-up\"\n"
    );
}
