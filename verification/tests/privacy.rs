use wikitui::privacy::{
    append_warning_if_needed, decide, find_analytics_reference, Verdict, Write,
    EXPLICIT_SAVE_WARNING,
};

#[test]
fn not_incognito_allows_every_write_kind() {
    for write in [
        Write::History,
        Write::Stats,
        Write::Interest,
        Write::Prefetch,
        Write::Cache,
        Write::Bookmark,
        Write::ReadLater,
        Write::OfflineSave,
        Write::Citation,
        Write::FetchQueue,
    ] {
        assert_eq!(
            decide(false, write),
            Verdict::Allow,
            "{write:?} must be unrestricted outside incognito"
        );
    }
}

#[test]
fn incognito_denies_every_passive_write() {
    for write in [
        Write::History,
        Write::Stats,
        Write::Interest,
        Write::Prefetch,
    ] {
        assert_eq!(
            decide(true, write),
            Verdict::Deny,
            "{write:?} is passive tracking"
        );
    }
}

#[test]
fn incognito_allows_cache_writes_outright_tagging_is_a_separate_mechanism() {
    assert_eq!(decide(true, Write::Cache), Verdict::Allow);
}

#[test]
fn incognito_allows_every_explicit_save_but_warns() {
    for write in [
        Write::Bookmark,
        Write::ReadLater,
        Write::OfflineSave,
        Write::Citation,
        Write::FetchQueue,
    ] {
        assert_eq!(
            decide(true, write),
            Verdict::AllowWithWarning,
            "{write:?} is an explicit save"
        );
    }
}

#[test]
fn append_warning_if_needed_is_a_no_op_outside_incognito() {
    assert_eq!(
        append_warning_if_needed(false, Write::Bookmark, "Bookmarked \"X\"".to_string()),
        "Bookmarked \"X\""
    );
}

#[test]
fn append_warning_if_needed_appends_the_shared_wording_in_incognito() {
    let out = append_warning_if_needed(true, Write::Bookmark, "Bookmarked \"X\"".to_string());
    assert!(out.starts_with("Bookmarked \"X\" ("));
    assert!(out.contains(EXPLICIT_SAVE_WARNING));
}

#[test]
fn append_warning_if_needed_leaves_a_denied_write_untouched() {
    assert_eq!(
        append_warning_if_needed(true, Write::History, "recorded".to_string()),
        "recorded"
    );
}

#[test]
fn detector_catches_a_known_analytics_reference() {
    let fixture = format!("let endpoint = \"https://{}{}/collect\";", "sentry", ".io");
    assert_eq!(find_analytics_reference(&fixture), Some("sentry.io"));
}

#[test]
fn detector_is_clean_on_ordinary_privacy_policy_prose() {
    let prose = "wikitui sends no telemetry, ever. The only network \
                  calls are to the wikis you read, plus prefetch.";
    assert_eq!(find_analytics_reference(prose), None);
}
