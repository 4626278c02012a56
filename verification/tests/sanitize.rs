use std::borrow::Cow;
use wikitui::sanitize::{
    cap_len, sanitize_and_cap_multiline, sanitize_and_cap_single_line, sanitize_single_line,
    sanitize_text, MAX_SPAN_CHARS,
};

#[test]
fn clean_ascii_text_is_borrowed_not_allocated() {
    let s = "Alan Turing was a mathematician.";
    assert!(matches!(sanitize_text(s), Cow::Borrowed(_)));
    assert!(matches!(sanitize_single_line(s), Cow::Borrowed(_)));
}

#[test]
fn strips_esc_and_csi_introducer_leaving_inert_text() {
    let hostile = "before\x1b[31mafter";
    let clean = sanitize_text(hostile);
    assert!(!clean.contains('\x1b'), "{clean:?}");
    assert_eq!(clean, "before[31mafter");
}

#[test]
fn strips_osc_title_set_sequence_introducer_and_terminator() {
    let hostile = "\x1b]0;pwned\x07Article Title";
    let clean = sanitize_single_line(hostile);
    assert!(!clean.contains('\x1b'));
    assert!(!clean.contains('\x07'));
    assert_eq!(clean, "]0;pwnedArticle Title");
}

#[test]
fn strips_c1_control_bytes() {
    let hostile = "before\u{9B}31mafter";
    let clean = sanitize_text(hostile);
    assert!(!clean.chars().any(|c| (0x80..=0x9F).contains(&(c as u32))));
    assert_eq!(clean, "before31mafter");
}

#[test]
fn strips_del_byte() {
    let hostile = "abc\u{7F}def";
    assert_eq!(sanitize_text(hostile), "abcdef");
}

#[test]
fn strips_bidi_overrides() {
    let hostile = "safe\u{202E}evil\u{202C}tail";
    let clean = sanitize_text(hostile);
    assert!(!clean.contains('\u{202E}'));
    assert!(!clean.contains('\u{202C}'));
    assert_eq!(clean, "safeeviltail");
}

#[test]
fn strips_isolate_characters() {
    let hostile = "\u{2066}isolated\u{2069}";
    assert_eq!(sanitize_text(hostile), "isolated");
}

#[test]
fn strips_zwsp_word_joiner_and_bom_but_keeps_zwj_emoji_intact() {
    let family = "\u{1F468}\u{200D}\u{1F469}\u{200D}\u{1F467}";
    assert_eq!(sanitize_text(family), family, "ZWJ emoji must be intact");

    let hostile = "a\u{200B}b\u{2060}c\u{FEFF}d";
    assert_eq!(
        sanitize_text(hostile),
        "abcd",
        "ZWSP/WORD JOINER/BOM must be stripped"
    );
}

#[test]
fn keeps_combining_marks_for_ipa_and_diacritics() {
    let combining = "n\u{0303} \u{0283}\u{0361}\u{0288}"; // combining tilde; tie bars
    assert_eq!(sanitize_text(combining), combining);
}

#[test]
fn maps_unicode_line_and_paragraph_separators_to_space() {
    assert_eq!(sanitize_text("a\u{2028}b"), "a b");
    assert_eq!(sanitize_text("a\u{2029}b"), "a b");
}

#[test]
fn multiline_variant_keeps_newline_and_tab() {
    let s = "line one\nline\ttwo";
    assert!(matches!(sanitize_text(s), Cow::Borrowed(_)));
    assert_eq!(sanitize_text(s), s);
}

#[test]
fn single_line_variant_strips_newline_and_tab() {
    let s = "line one\nline\ttwo";
    assert_eq!(sanitize_single_line(s), "line onelinetwo");
}

#[test]
fn cap_len_is_a_no_op_under_budget() {
    let s = "short";
    assert!(matches!(cap_len(s, 100), Cow::Borrowed(_)));
}

#[test]
fn cap_len_truncates_on_a_char_boundary_with_a_marker() {
    let s = "é".repeat(10); // 2 bytes each, so byte-slicing blindly would panic
    let capped = cap_len(&s, 3);
    assert!(capped.starts_with(&"é".repeat(3)));
    assert!(capped.ends_with("[truncated]"));
}

#[test]
fn sanitize_and_cap_helpers_compose_both_steps() {
    let hostile = format!("\x1b[31m{}", "x".repeat(30));
    let capped = sanitize_and_cap_single_line(&hostile, 10);
    assert!(!capped.contains('\x1b'));
    assert!(capped.ends_with("[truncated]"));
}

#[test]
fn sanitizing_twice_is_sanitizing_once() {
    let once = sanitize_text("a\u{2028}b\x1b[0m\n\u{202E}c").into_owned();
    assert_eq!(once, "a b[0m\nc");
    assert_eq!(sanitize_text(&once), once.as_str());
    assert!(matches!(sanitize_text(&once), Cow::Borrowed(_)));
}

#[test]
fn a_text_of_exactly_the_limit_is_not_cut() {
    assert_eq!(cap_len("abc", 3), "abc");
    assert_eq!(cap_len("abcd", 3), "abc…[truncated]");
    assert_eq!(sanitize_and_cap_multiline("a\nb\x07c", MAX_SPAN_CHARS), "a\nbc");
}

#[test]
fn a_cut_never_splits_a_combined_cluster() {
    let s = "e\u{301}".repeat(3);
    assert_eq!(cap_len(&s, 3), "e\u{301}…[truncated]");
    assert_eq!(cap_len(&s, 4), "e\u{301}e\u{301}…[truncated]");
    assert_eq!(cap_len(&s, 1), "…[truncated]");
    assert_eq!(cap_len(&s, 6), s);
}
