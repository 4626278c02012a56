use wikitui::research::{
    article_url, create_page_url, history_url, permalink_url, remove_line, self_citation,
    CitationKind, ResearchStore, SavedCitation,
};

fn sample(text: &str) -> SavedCitation {
    SavedCitation {
        source_article: "Alan Turing".to_string(),
        source_lang: "en".to_string(),
        text: text.to_string(),
        url: Some("https://example.com".to_string()),
        saved_at: "2026-01-01".to_string(),
        kind: CitationKind::Reference,
    }
}

#[test]
fn self_citation_includes_title_and_wiki_url() {
    let citation = self_citation("Alan Turing", "en");
    assert!(citation.text.contains("Alan Turing"));
    assert_eq!(
        citation.url.as_deref(),
        Some("https://en.wikipedia.org/wiki/Alan_Turing")
    );
}

#[test]
fn self_citation_underscores_spaces_in_the_url_only() {
    let citation = self_citation("New York City", "en");
    assert!(
        citation.text.contains("New York City"),
        "display text keeps real spaces"
    );
    assert!(citation.url.unwrap().ends_with("New_York_City"));
}

#[test]
fn add_without_a_persistence_path_still_updates_in_memory() {
    let mut store = ResearchStore::in_memory();
    store.add(sample("In-memory only"));
    assert_eq!(store.citations.len(), 1);
    assert_eq!(store.list().len(), 1);
}

#[test]
fn remove_out_of_range_returns_none_and_changes_nothing() {
    let mut store = ResearchStore::in_memory();
    store.add(sample("Only entry"));
    assert!(store.remove(5).is_none());
    assert_eq!(store.citations.len(), 1);
}

#[test]
fn permalink_url_uses_the_oldid_form() {
    assert_eq!(
        permalink_url("Alan Turing", "en", 123456),
        "https://en.wikipedia.org/w/index.php?title=Alan_Turing&oldid=123456"
    );
}

#[test]
fn permalink_url_does_not_special_case_a_zero_revid() {
    assert!(permalink_url("Stub", "en", 0).ends_with("&oldid=0"));
}

#[test]
fn history_url_uses_the_action_history_form() {
    assert_eq!(
        history_url("Alan Turing", "en"),
        "https://en.wikipedia.org/w/index.php?title=Alan_Turing&action=history"
    );
}

#[test]
fn history_url_handles_non_english_lang_and_multiword_titles() {
    assert_eq!(
        history_url("New York City", "de"),
        "https://de.wikipedia.org/w/index.php?title=New_York_City&action=history"
    );
}

#[test]
fn the_other_addresses_have_their_forms() {
    assert_eq!(article_url("A B", "fr"), "https://fr.wikipedia.org/wiki/A_B");
    assert_eq!(
        create_page_url("A B", "fr"),
        "https://fr.wikipedia.org/w/index.php?title=A_B&action=edit"
    );
    assert_eq!(
        self_citation("X", "en").text,
        "\"X.\" Wikipedia, The Free Encyclopedia. Wikimedia Foundation."
    );
    assert_eq!(self_citation("X", "en").id, "self");
}

#[test]
fn a_store_with_a_file_says_what_is_to_be_written() {
    let mut store = ResearchStore::load_from("c.jsonl".to_string(), vec![sample("One")]);
    assert!(!store.is_in_memory());
    assert_eq!(store.add(sample("Two")), Some("c.jsonl".to_string()));
    let (removed, path) = store.remove(0).unwrap();
    assert_eq!(removed.text, "One");
    assert_eq!(path, Some("c.jsonl".to_string()));
    assert_eq!(store.citations.len(), 1);
    assert!(ResearchStore::in_memory().is_in_memory());
    assert_eq!(CitationKind::default(), CitationKind::Reference);
}

#[test]
fn remove_preserves_lines_it_cannot_parse() {
    let lines: Vec<String> = ["delete", "keep", "{\"truncated\":", "future"]
        .iter()
        .map(|s| s.to_string())
        .collect();
    let parsed = vec![Some(sample("Delete me")), Some(sample("Keep me")), None, None];
    assert_eq!(
        remove_line(&lines, &parsed, &sample("Delete me")),
        Some(vec![
            "keep".to_string(),
            "{\"truncated\":".to_string(),
            "future".to_string()
        ])
    );
}

#[test]
fn remove_of_an_entry_missing_from_disk_is_ok() {
    let lines = vec!["on disk".to_string()];
    let parsed = vec![Some(sample("On disk"))];
    assert_eq!(remove_line(&lines, &parsed, &sample("Memory only")), None);
}

#[test]
fn only_the_first_of_two_equal_lines_goes() {
    let lines = vec!["a".to_string(), "b".to_string()];
    let parsed = vec![Some(sample("Same")), Some(sample("Same"))];
    assert_eq!(
        remove_line(&lines, &parsed, &sample("Same")),
        Some(vec!["b".to_string()])
    );
    let mut other = sample("Same");
    other.url = None;
    assert_eq!(remove_line(&lines, &parsed, &other), None);
}
