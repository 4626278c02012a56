use wikitui::macros::{
    step_names_a_known_command, strip_colon, MAX_DEPTH, OPEN_FEED, TAB_OPEN_RANDOM_GOOD,
};

/// What the command line says of a name it does not know.
const UNKNOWN: Option<&str> = Some("unknown command \"x\"");

#[test]
fn strip_colon_removes_at_most_one_leading_colon_and_trims() {
    assert_eq!(strip_colon(":toc"), "toc");
    assert_eq!(strip_colon("toc"), "toc");
    assert_eq!(strip_colon("  :open Alan Turing  "), "open Alan Turing");
    assert_eq!(strip_colon("::toc"), ":toc", "only one leading colon is stripped");
}

#[test]
fn recognizes_the_two_macro_only_aliases_with_or_without_a_colon() {
    assert!(step_names_a_known_command(OPEN_FEED, UNKNOWN));
    assert!(step_names_a_known_command(TAB_OPEN_RANDOM_GOOD, UNKNOWN));
    assert!(step_names_a_known_command(":open-feed", UNKNOWN));
}

#[test]
fn recognizes_bare_registry_action_names() {
    assert!(step_names_a_known_command("toc", UNKNOWN));
    assert!(step_names_a_known_command("scroll-down", UNKNOWN));
    assert!(step_names_a_known_command(":random-article", UNKNOWN));
}

#[test]
fn recognizes_colon_commands_with_or_without_arguments() {
    assert!(step_names_a_known_command("open Alan Turing", None));
    assert!(step_names_a_known_command(":open Alan Turing", None));
    assert!(step_names_a_known_command("random good", None));
    assert!(step_names_a_known_command("open", Some("usage: :open <title>")));
}

#[test]
fn rejects_genuinely_unknown_words() {
    assert!(!step_names_a_known_command("frobnicate", Some("unknown command \"frobnicate\"")));
    assert!(!step_names_a_known_command("", None));
    assert!(!step_names_a_known_command("   ", None));
    assert!(!step_names_a_known_command(":", None));
}

#[test]
fn a_bad_argument_is_not_an_unknown_command() {
    assert!(step_names_a_known_command("random what", Some("unknown :random argument what")));
    assert_eq!(MAX_DEPTH, 8);
}

#[test]
fn a_colon_before_a_step_makes_no_difference() {
    for step in ["toc", "  toc ", " open Alan Turing", "frobnicate", "", "  ", "open-feed "] {
        for message in [None, UNKNOWN, Some("usage: :open <title>")] {
            let with = format!(":{step}");
            assert_eq!(strip_colon(&with), strip_colon(step));
            assert_eq!(
                step_names_a_known_command(&with, message),
                step_names_a_known_command(step, message)
            );
        }
    }
}
