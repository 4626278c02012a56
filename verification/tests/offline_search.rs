use std::collections::BTreeMap;
use wikitui::offline_search::{
    doc_rowid, fnv1a, fts5_query_escape, index_steps, reindex_steps, remove_step, search_query,
    IndexedDoc, Kind, Step,
};

fn doc(lang: &str, title: &str, body: &str) -> IndexedDoc {
    IndexedDoc {
        wiki: String::new(),
        lang: lang.to_string(),
        title: title.to_string(),
        kind: Kind::Cached,
        body: body.to_string(),
    }
}

fn run(rows: &mut BTreeMap<i64, IndexedDoc>, steps: Vec<Step>) {
    for step in steps {
        match step {
            Step::Clear => rows.clear(),
            Step::Delete(id) => {
                rows.remove(&id);
            }
            Step::Insert(id, doc) => {
                rows.insert(id, doc);
            }
        }
    }
}

#[test]
fn doc_rowid_is_stable_and_distinguishes_its_three_fields() {
    let a = doc_rowid("", "en", "Mercury");
    let b = doc_rowid("", "en", "Mercury");
    assert_eq!(a, b, "must be deterministic");
    assert_ne!(a, doc_rowid("wiktionary", "en", "Mercury"));
    assert_ne!(a, doc_rowid("", "de", "Mercury"));
    assert_ne!(a, doc_rowid("", "en", "Venus"));
}

#[test]
fn fts5_query_escape_quotes_every_word() {
    assert_eq!(fts5_query_escape("Alan Turing"), "\"Alan\" \"Turing\"");
    assert_eq!(fts5_query_escape("solo"), "\"solo\"");
}

#[test]
fn quotes_in_a_query_are_doubled() {
    assert_eq!(fts5_query_escape("say \"hi\""), "\"say\" \"\"\"hi\"\"\"");
    assert_eq!(fts5_query_escape("  a\t\nb "), "\"a\" \"b\"");
}

#[test]
fn a_blank_query_asks_nothing() {
    assert_eq!(search_query(""), None);
    assert_eq!(search_query("   "), None);
    assert_eq!(search_query(" col:term* "), Some("\"col:term*\"".to_string()));
}

#[test]
fn the_hash_has_its_published_values() {
    assert_eq!(fnv1a(b""), 0xcbf2_9ce4_8422_2325);
    assert_eq!(fnv1a(b"a"), 0xaf63_dc4c_8601_ec8c);
    assert_eq!(fnv1a(b"foobar"), 0x8594_4171_f739_67e8);
}

#[test]
fn indexing_a_page_again_keeps_one_row() {
    let mut rows = BTreeMap::new();
    run(&mut rows, index_steps(&doc("en", "Draft", "first")));
    run(&mut rows, index_steps(&doc("en", "Draft", "second")));
    assert_eq!(rows.len(), 1);
    assert_eq!(rows[&doc_rowid("", "en", "Draft")].body, "second");
    run(&mut rows, vec![remove_step("", "en", "Draft")]);
    assert!(rows.is_empty());
}

#[test]
fn building_the_index_anew_drops_what_was_there() {
    let mut rows = BTreeMap::new();
    run(&mut rows, index_steps(&doc("en", "Stale", "old")));
    let docs = vec![doc("en", "Alan Turing", "a"), doc("de", "Alan Turing", "b")];
    let (steps, report) = reindex_steps(&docs);
    run(&mut rows, steps);
    assert_eq!(report.indexed, 2);
    assert_eq!(rows.len(), 2);
    assert!(!rows.contains_key(&doc_rowid("", "en", "Stale")));
    let (steps, report) = reindex_steps(&Vec::new());
    run(&mut rows, steps);
    assert_eq!(report.indexed, 0);
    assert!(rows.is_empty());
}

#[test]
fn kinds_are_read_back_from_their_labels() {
    assert_eq!(Kind::parse(Kind::Saved.label()), Kind::Saved);
    assert_eq!(Kind::parse(Kind::Cached.label()), Kind::Cached);
    assert_eq!(Kind::parse("other"), Kind::Cached);
}
