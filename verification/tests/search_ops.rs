use wikitui::search_ops::{complete_operator_name, operators};

#[test]
fn unambiguous_prefix_completes_to_the_full_operator_name() {
    assert_eq!(
        complete_operator_name("morel"),
        Some("morelike:".to_string())
    );
    assert_eq!(
        complete_operator_name("hastempl"),
        Some("hastemplate:".to_string())
    );
}

#[test]
fn a_fully_typed_operator_name_still_gets_the_colon_appended() {
    assert_eq!(
        complete_operator_name("morelike"),
        Some("morelike:".to_string())
    );
}

#[test]
fn earlier_words_in_the_query_are_preserved() {
    assert_eq!(
        complete_operator_name("Turing morel"),
        Some("Turing morelike:".to_string())
    );
}

#[test]
fn an_ambiguous_prefix_completes_to_nothing() {
    assert_eq!(complete_operator_name("in"), None);
}

#[test]
fn a_word_that_already_has_a_colon_is_left_untouched() {
    assert_eq!(complete_operator_name("intitle:Turing"), None);
}

#[test]
fn a_non_operator_word_completes_to_nothing() {
    assert_eq!(complete_operator_name("hello"), None);
    assert_eq!(complete_operator_name("Alan Turing"), None);
}

#[test]
fn empty_input_completes_to_nothing() {
    assert_eq!(complete_operator_name(""), None);
    assert_eq!(complete_operator_name("Alan "), None);
}

#[test]
fn every_documented_operator_is_listed_with_a_description() {
    let names: Vec<&str> = operators().iter().map(|op| op.name).collect();
    for expected in [
        "intitle",
        "incategory",
        "insource",
        "hastemplate",
        "deepcat",
        "articletopic",
        "morelike",
        "prefix",
    ] {
        assert!(names.contains(&expected), "missing operator {expected:?}");
    }
    for op in operators() {
        assert!(!op.about.is_empty(), "{} has no description", op.name);
    }
}

#[test]
fn the_case_of_a_half_typed_operator_does_not_matter() {
    assert_eq!(complete_operator_name("MOREL"), Some("morelike:".to_string()));
    assert_eq!(complete_operator_name("a\tPref"), Some("a\tprefix:".to_string()));
}

#[test]
fn a_wide_space_ends_a_word_too() {
    assert_eq!(
        complete_operator_name("turing\u{2003}morel"),
        Some("turing\u{2003}morelike:".to_string())
    );
}
