use wikitui::saved::{
    sha256_hex, IndexWrite, Integrity, LinkSummary, PageToSave, SavedPages, SavedRecord, Tier,
    MAX_T1_THUMBS, MAX_T2_SUMMARIES, ZSTD_LEVEL,
};

const NOW: &str = "2026-07-14T10:00:00+00:00";

fn page(title: &str, tier: Tier, html: &str, thumbs: Vec<(String, Vec<u8>)>) -> PageToSave {
    PageToSave {
        lang: "en".to_string(),
        title: title.to_string(),
        revid: 1001,
        tier,
        html: html.to_string(),
        thumbs,
        summaries: Vec::new(),
        source_note: "S save".to_string(),
        safe_lang: "en".to_string(),
        safe_title: title.replace(' ', "_"),
    }
}

fn thumb(bytes: usize) -> (String, Vec<u8>) {
    ("http://example/img.png".to_string(), vec![0xAB; bytes])
}

fn temp_store() -> SavedPages {
    SavedPages::at("saved".to_string(), Vec::new())
}

/// Pins a page, and gives its record and its packed text.
fn save(store: &mut SavedPages, page: PageToSave) -> (SavedRecord, Vec<u8>) {
    let (record, packed) = store.prepare_save(&page, NOW);
    store.commit_save(record.clone());
    (record, packed.unwrap())
}

#[test]
fn tier_parses_and_labels_round_trip() {
    assert_eq!(Tier::parse("t0"), Some(Tier::T0));
    assert_eq!(Tier::parse("T1"), Some(Tier::T1));
    assert_eq!(Tier::parse("t2"), Some(Tier::T2));
    assert_eq!(Tier::parse("t3"), None);
    assert_eq!(Tier::T0.label(), "T0");
    assert_eq!(Tier::T2.label(), "T2");
}

#[test]
fn tiers_have_their_estimates() {
    assert_eq!(Tier::T0.estimate_bytes(), 30_720);
    assert_eq!(Tier::T1.estimate_bytes(), 307_200);
    assert_eq!(Tier::T2.estimate_bytes(), 348_160);
    assert_eq!((MAX_T1_THUMBS, MAX_T2_SUMMARIES, ZSTD_LEVEL), (8, 20, 3));
}

#[test]
fn save_get_remove_round_trip() {
    let mut store = temp_store();
    assert!(!store.is_saved("en", "Alan Turing"));
    let html = "<html><body><p>hi</p></body></html>";
    let (rec, packed) = save(&mut store, page("Alan Turing", Tier::T0, html, Vec::new()));
    assert_eq!(rec.tier, Tier::T0);
    assert!(store.is_saved("en", "Alan Turing"));
    assert_ne!(packed, html.as_bytes());

    let at = 1_784_023_260;
    let got = store
        .get("en", "Alan Turing", Some(packed.clone()), at)
        .expect("served offline");
    assert_eq!(got.html, html);
    assert_eq!(got.revid, 1001);
    assert_eq!(got.age_secs, 60);
    assert_eq!(
        store.content_file("en", "Alan Turing"),
        Some("content/en/Alan_Turing.html.zst".to_string())
    );

    let reloaded = SavedPages::at("saved".to_string(), store.list().clone());
    assert!(reloaded.is_saved("en", "Alan Turing"));

    let removed = store.remove("en", "Alan Turing").unwrap();
    assert_eq!(removed.title, "Alan Turing");
    assert!(!store.is_saved("en", "Alan Turing"));
    assert!(store.get("en", "Alan Turing", Some(packed), at).is_none());
    assert!(store.remove("en", "Alan Turing").is_none());
}

#[test]
fn integrity_ok_when_intact_and_corrupt_when_tampered() {
    let mut store = temp_store();
    let (_, packed) = save(&mut store, page("Turing", Tier::T0, "<p>original</p>", Vec::new()));
    assert_eq!(store.verify("en", "Turing", &Some(packed)), Integrity::Intact);
    let tampered = zstd::stream::encode_all("<p>TAMPERED</p>".as_bytes(), ZSTD_LEVEL).unwrap();
    assert_eq!(
        store.verify("en", "Turing", &Some(tampered)),
        Integrity::Corrupt,
        "a changed HTML blob must fail the sha256 check"
    );
    let tampered = zstd::stream::encode_all("<p>TAMPERED</p>".as_bytes(), ZSTD_LEVEL).unwrap();
    assert!(
        store.get("en", "Turing", Some(tampered), 0).is_none(),
        "a changed copy is not served"
    );
}

#[test]
fn integrity_corrupt_when_content_unreadable() {
    let mut store = temp_store();
    save(&mut store, page("Turing", Tier::T0, "<p>x</p>", Vec::new()));
    let garbage = Some(b"not zstd at all".to_vec());
    assert_eq!(store.verify("en", "Turing", &garbage), Integrity::Corrupt);
    assert_eq!(store.verify("en", "Turing", &None), Integrity::Corrupt);
    assert_eq!(store.verify("en", "Nope", &None), Integrity::Corrupt);
    assert!(store.get("en", "Turing", garbage, 0).is_none());
    let latin = zstd::stream::encode_all(&[0xFF_u8, 0xFE][..], ZSTD_LEVEL).unwrap();
    assert!(store.get("en", "Turing", Some(latin), 0).is_none());
}

#[test]
fn tier_semantics_t0_has_no_thumbs_t1_does_t2_has_summaries() {
    let mut store = temp_store();
    let (t0, _) = save(&mut store, page("A", Tier::T0, "<p>a</p>", Vec::new()));
    assert!(t0.thumbs.is_empty(), "T0 stores HTML only");
    assert!(t0.summaries.is_empty());
    assert_eq!(t0.thumb_bytes, 0);

    let (t1, _) = save(&mut store, page("B", Tier::T1, "<p>b</p>", vec![thumb(100), thumb(50)]));
    assert_eq!(t1.thumbs.len(), 2, "T1 pins thumbnails");
    assert_eq!(t1.thumb_bytes, 150);
    assert_eq!(t1.thumbs[1].file, "1");
    assert!(t1.summaries.is_empty());
    assert_eq!(
        store.thumb_file("en", "B", "http://example/img.png", "en", "B"),
        Some("thumbs/en/B/0".to_string())
    );
    assert_eq!(store.thumb_file("en", "B", "http://example/none.png", "en", "B"), None);

    let mut with_summaries = page("C", Tier::T2, "<p>c</p>", Vec::new());
    with_summaries.summaries = vec![LinkSummary {
        title: "Linked".to_string(),
        extract: "A short extract.".to_string(),
    }];
    let (t2, _) = save(&mut store, with_summaries);
    assert_eq!(t2.summaries.len(), 1, "T2 stores link summaries");
    assert_eq!(t2.summaries[0].title, "Linked");
}

#[test]
fn t1_thumbnails_are_capped() {
    let mut store = temp_store();
    let many: Vec<(String, Vec<u8>)> = (0..MAX_T1_THUMBS + 5)
        .map(|i| (format!("http://example/{i}.png"), vec![0u8; 10]))
        .collect();
    let (rec, _) = save(&mut store, page("Gallery", Tier::T1, "<p>g</p>", many));
    assert_eq!(
        rec.thumbs.len(),
        MAX_T1_THUMBS,
        "thumbnail count is capped at MAX_T1_THUMBS"
    );
}

#[test]
fn total_bytes_sums_html_and_thumbs() {
    let mut store = temp_store();
    save(&mut store, page("A", Tier::T0, "12345", Vec::new()));
    save(&mut store, page("B", Tier::T1, "12345", vec![thumb(20)]));
    assert_eq!(store.total_bytes(), 5 + 5 + 20);
}

#[test]
fn re_saving_replaces_rather_than_duplicates() {
    let mut store = temp_store();
    save(&mut store, page("A", Tier::T0, "<p>v1</p>", Vec::new()));
    let mut again = page("A", Tier::T1, "<p>v2</p>", vec![thumb(10)]);
    again.revid = 2;
    let (record, packed) = store.prepare_save(&again, NOW);
    assert_eq!(store.commit_save(record), IndexWrite::Replace);
    assert_eq!(
        store.records.len(),
        1,
        "same (lang,title) is not duplicated"
    );
    let got = store.get("en", "A", packed, 0).unwrap();
    assert_eq!(got.html, "<p>v2</p>");
    assert_eq!(got.revid, 2);
    assert_eq!(got.age_secs, 0);
    assert_eq!(store.find("en", "A").unwrap().tier, Tier::T1);
}

#[test]
fn get_on_missing_and_disabled_store() {
    let store = temp_store();
    assert!(store.get("en", "Nope", Some(vec![1]), 0).is_none());
    let mut mem = SavedPages::in_memory();
    assert!(mem.get("en", "Nope", None, 0).is_none());
    let (record, packed) = mem.prepare_save(&page("A", Tier::T1, "x", vec![thumb(3)]), NOW);
    assert_eq!(record.thumbs[0].file, "");
    assert_eq!(mem.commit_save(record), IndexWrite::Nothing);
    assert!(mem.get("en", "A", packed, 0).is_none());
    assert_eq!(mem.verify("en", "A", &None), Integrity::Intact);
    assert_eq!(mem.content_file("en", "A"), None);
}

#[test]
fn the_whole_store_is_verified_in_order() {
    let mut store = temp_store();
    let (first, packed) = save(&mut store, page("A", Tier::T0, "a", Vec::new()));
    let (record, own) = store.prepare_save(&page("B", Tier::T0, "b", Vec::new()), "no time");
    assert_eq!(store.commit_save(record), IndexWrite::Append);
    assert_eq!(
        store.verify_all(&vec![Some(packed.clone()), Some(packed.clone())]),
        vec![
            ("en".to_string(), "A".to_string(), Integrity::Intact),
            ("en".to_string(), "B".to_string(), Integrity::Corrupt),
        ]
    );
    assert!(store.get("en", "B", Some(packed), 5).is_none());
    assert_eq!(store.get("en", "B", own, 5).unwrap().age_secs, 0);
    assert_eq!(first.html_bytes, 1);
    assert_eq!(first.sha256, sha256_hex(b"a"));
}

#[test]
fn digests_are_in_lowercase_hexadecimal() {
    assert_eq!(
        sha256_hex(b"abc"),
        "ba7816bf8f01cfea414140de5dae2223b00361a396177a9cb410ff61f20015ad"
    );
}
