use serde_json::Value;
use std::collections::HashMap;
use wikitui::netqueue::LinkCandidate;
use wikitui::prefetch::{
    format_views, link_reason, morelike_reason, parse_onthisday, rank_links, strip_tags,
    trending_reason, FeaturedFeed, FeedCache, Field, RankedLink, RawArticle, RawFeed, RawNewsItem,
    RawOnThisDayItem, RawPage, FEED_TEXT_CAP,
};

struct RankWeights {
    lead: f64,
    pageviews: f64,
    affinity: f64,
}

const EVEN: RankWeights = RankWeights { lead: 1.0, pageviews: 1.0, affinity: 1.0 };

fn cand(title: &str, pos: usize) -> LinkCandidate {
    LinkCandidate {
        title: title.to_string(),
        lead_position: pos,
        is_cursor: false,
    }
}

fn no_affinity() -> HashMap<String, f64> {
    HashMap::new()
}

/// Scores the links, and ranks each by how many scores it exceeds.
fn ranked_links(
    article: &str,
    cands: &[LinkCandidate],
    views: &HashMap<String, u64>,
    affinity: &HashMap<String, f64>,
    weights: RankWeights,
    top_n: usize,
) -> Vec<RankedLink> {
    let page_views: Vec<u64> = cands
        .iter()
        .map(|c| views.get(&c.title).copied().unwrap_or(0))
        .collect();
    let scores: Vec<f64> = cands
        .iter()
        .zip(&page_views)
        .map(|(c, v)| {
            weights.lead / (1.0 + c.lead_position as f64)
                + weights.pageviews * ((*v as f64) + 1.0).ln()
                + weights.affinity * affinity.get(&c.title).copied().unwrap_or(0.0)
        })
        .collect();
    let ranks: Vec<u64> = scores
        .iter()
        .map(|s| scores.iter().filter(|t| *t < s).count() as u64)
        .collect();
    let field = Field { candidates: cands.to_vec(), page_views, ranks };
    rank_links(article, &field, top_n)
}

fn text(v: &Value) -> Option<String> {
    v.as_str().map(str::to_string)
}

fn page(v: &Value) -> RawPage {
    RawPage {
        title: text(&v["title"]),
        normalizedtitle: text(&v["normalizedtitle"]),
        extract: text(&v["extract"]),
        thumbnail: text(&v["thumbnail"]["source"]),
    }
}

fn items(v: &Value) -> Vec<Value> {
    v.as_array().cloned().unwrap_or_default()
}

fn pages(v: &Value) -> Vec<RawPage> {
    items(v).iter().map(page).collect()
}

fn entries(v: &Value) -> Vec<RawOnThisDayItem> {
    items(v)
        .iter()
        .map(|i| RawOnThisDayItem {
            text: text(&i["text"]),
            year: i["year"].as_i64(),
            pages: pages(&i["pages"]),
        })
        .collect()
}

/// Reads a feed from its JSON text.
fn parse_feed(body: &[u8]) -> FeaturedFeed {
    let v: Value = serde_json::from_slice(body).unwrap();
    FeaturedFeed::parse(&RawFeed {
        tfa: v.get("tfa").map(page),
        mostread: items(&v["mostread"]["articles"])
            .iter()
            .map(|a| RawArticle {
                title: text(&a["title"]),
                normalizedtitle: text(&a["normalizedtitle"]),
                views: a["views"].as_u64().unwrap_or(0),
            })
            .collect(),
        image: v.get("image").map(page),
        news: items(&v["news"])
            .iter()
            .map(|n| RawNewsItem { story: text(&n["story"]), links: pages(&n["links"]) })
            .collect(),
        onthisday: entries(&v["onthisday"]),
    })
}

fn requested(body: &[u8], event_type: &str) -> Option<Vec<RawOnThisDayItem>> {
    let v: Value = serde_json::from_slice(body).unwrap();
    v.get(event_type).map(entries)
}

#[test]
fn lead_position_breaks_ties_when_views_are_equal() {
    let cands = vec![cand("Late", 10), cand("Early", 0), cand("Mid", 3)];
    let views: HashMap<String, u64> = ["Late", "Early", "Mid"]
        .iter()
        .map(|t| (t.to_string(), 100))
        .collect();
    let ranked = ranked_links(
        "Src",
        &cands,
        &views,
        &no_affinity(),
        EVEN,
        5,
    );
    let order: Vec<&str> = ranked.iter().map(|r| r.title.as_str()).collect();
    assert_eq!(
        order,
        vec!["Early", "Mid", "Late"],
        "earlier position ranks higher"
    );
}

#[test]
fn pageviews_dominate_when_position_is_equal() {
    let cands = vec![cand("Obscure", 0), cand("Popular", 0), cand("Medium", 0)];
    let mut views = HashMap::new();
    views.insert("Obscure".to_string(), 5);
    views.insert("Popular".to_string(), 50_000);
    views.insert("Medium".to_string(), 500);
    let ranked = ranked_links(
        "Src",
        &cands,
        &views,
        &no_affinity(),
        EVEN,
        5,
    );
    let order: Vec<&str> = ranked.iter().map(|r| r.title.as_str()).collect();
    assert_eq!(order, vec!["Popular", "Medium", "Obscure"]);
}

#[test]
fn top_n_cuts_but_cursor_link_is_always_included() {
    let mut cands = vec![
        cand("A", 0),
        cand("B", 1),
        cand("C", 2),
        cand("D", 3),
        cand("Cursored", 20),
    ];
    cands[4].is_cursor = true;
    let views: HashMap<String, u64> = cands.iter().map(|c| (c.title.clone(), 100)).collect();
    let ranked = ranked_links(
        "Src",
        &cands,
        &views,
        &no_affinity(),
        EVEN,
        3,
    );
    let titles: Vec<&str> = ranked.iter().map(|r| r.title.as_str()).collect();
    assert_eq!(titles.len(), 4, "top-3 plus the cursor link");
    assert!(
        titles.contains(&"Cursored"),
        "cursor link forced in despite low rank"
    );
    assert!(titles.contains(&"A") && titles.contains(&"B") && titles.contains(&"C"));
}

#[test]
fn cursor_link_not_duplicated_when_it_ranks_in_top_n() {
    let mut cands = vec![cand("A", 0), cand("B", 1)];
    cands[0].is_cursor = true;
    let views: HashMap<String, u64> = cands.iter().map(|c| (c.title.clone(), 100)).collect();
    let ranked = ranked_links(
        "Src",
        &cands,
        &views,
        &no_affinity(),
        EVEN,
        5,
    );
    let count = ranked.iter().filter(|r| r.title == "A").count();
    assert_eq!(count, 1, "cursor link that made the cut is not added twice");
}

#[test]
fn reason_strings_describe_lead_cursor_and_views() {
    let mut c = cand("Enigma machine", 0);
    assert_eq!(
        link_reason("Alan Turing", &c, 12_345),
        "linked from Alan Turing (lead, 12k views/day)"
    );
    c.is_cursor = true;
    assert_eq!(
        link_reason("Alan Turing", &c, 0),
        "linked from Alan Turing (under cursor, lead)"
    );
    let deep = cand("Footnote", 42);
    assert_eq!(
        link_reason("Alan Turing", &deep, 800),
        "linked from Alan Turing (800 views/day)"
    );
}

#[test]
fn trending_reason_covers_tfa_and_ranked_mostread() {
    assert_eq!(trending_reason(None, 0), "today's featured article");
    assert_eq!(
        trending_reason(Some(3), 98_000),
        "trending #3 (98k views/day)"
    );
    assert_eq!(trending_reason(Some(7), 0), "trending #7");
}

#[test]
fn morelike_reason_matches_the_prd_phrasing() {
    assert_eq!(
        morelike_reason("Cryptography", &format!("{:.2}", 0.82)),
        "morelike your Cryptography reading, affinity 0.82"
    );
    assert_eq!(
        morelike_reason("Computer science", &format!("{:.2}", 4.0)),
        "morelike your Computer science reading, affinity 4.00"
    );
}

#[test]
fn a_high_affinity_target_outranks_a_low_one_at_equal_lead_and_views() {
    let cands = vec![cand("LowAffinity", 0), cand("HighAffinity", 0)];
    let views: HashMap<String, u64> = cands.iter().map(|c| (c.title.clone(), 100)).collect();
    let mut affinity = HashMap::new();
    affinity.insert("HighAffinity".to_string(), 5.0);
    let weights = RankWeights {
        lead: 1.0,
        pageviews: 1.0,
        affinity: 1.0,
    };
    let ranked = ranked_links("Src", &cands, &views, &affinity, weights, 5);
    assert_eq!(
        ranked[0].title, "HighAffinity",
        "the demonstrably-preferred topic's link is prefetched first"
    );
    assert!(ranked[0].rank > ranked[1].rank);
}

#[test]
fn a_zero_affinity_weight_ignores_the_map_entirely() {
    let cands = vec![cand("A", 0), cand("B", 0)];
    let views: HashMap<String, u64> = [("A", 10u64), ("B", 5000)]
        .iter()
        .map(|(t, v)| (t.to_string(), *v))
        .collect();
    let mut affinity = HashMap::new();
    affinity.insert("A".to_string(), 1000.0); // would dominate if weighted
    let weights = RankWeights {
        lead: 1.0,
        pageviews: 1.0,
        affinity: 0.0,
    };
    let ranked = ranked_links("Src", &cands, &views, &affinity, weights, 5);
    assert_eq!(
        ranked[0].title, "B",
        "pageviews win; affinity is unweighted"
    );
}

#[test]
fn format_views_is_compact() {
    assert_eq!(format_views(42), "42");
    assert_eq!(format_views(12_345), "12k");
    assert_eq!(format_views(1_234_567), "1.2M");
}

#[test]
fn featured_feed_parses_tfa_mostread_potd_and_onthisday() {
    let body = br#"{
        "tfa": {"title": "Alan_Turing", "normalizedtitle": "Alan Turing"},
        "mostread": {"articles": [
            {"title": "Enigma_machine", "normalizedtitle": "Enigma machine", "views": 50000, "rank": 1},
            {"title": "Computer_science", "normalizedtitle": "Computer science", "views": 20000, "rank": 2}
        ]},
        "image": {"title": "File:Example.jpg"},
        "onthisday": [{"text": "a"}, {"text": "b"}]
    }"#;
    let feed = parse_feed(body);
    assert_eq!(
        feed.tfa.as_deref(),
        Some("Alan Turing"),
        "prefers the space-form title so it dedups with article opens"
    );
    assert_eq!(feed.mostread.len(), 2);
    assert_eq!(feed.mostread[0].title, "Enigma machine");
    assert_eq!(feed.mostread[0].views, 50_000);
    assert_eq!(feed.potd.as_deref(), Some("File:Example.jpg"));
    assert_eq!(feed.onthisday_events, 2);
}

#[test]
fn featured_feed_tolerates_missing_sections() {
    let feed = parse_feed(br#"{}"#);
    assert_eq!(feed.tfa, None);
    assert!(feed.mostread.is_empty());
    assert_eq!(feed.onthisday_events, 0);
    assert_eq!(feed.extract, None);
    assert!(feed.news.is_empty());
    assert!(feed.onthisday.is_empty());
    assert_eq!(feed.potd_thumb_url, None);
}

#[test]
fn featured_feed_parses_extract_news_and_potd_thumbnail() {
    let body = br#"{
        "tfa": {"title": "Alan_Turing", "normalizedtitle": "Alan Turing",
                "extract": "Alan Turing was a mathematician.\nHe broke Enigma."},
        "image": {"title": "File:Example.jpg",
                  "thumbnail": {"source": "https://example.com/thumb.jpg"}},
        "news": [
            {"story": "<a href=\"./Enigma_machine\">Enigma</a> anniversary marked.",
             "links": [{"title": "Enigma_machine", "normalizedtitle": "Enigma machine"}]},
            {"story": "A story with no links."}
        ],
        "onthisday": [
            {"text": "Turing born.", "year": 1912,
             "pages": [{"title": "Alan_Turing", "normalizedtitle": "Alan Turing"}]}
        ]
    }"#;
    let feed = parse_feed(body);
    assert_eq!(
        feed.extract.as_deref(),
        Some("Alan Turing was a mathematician.\nHe broke Enigma.")
    );
    assert_eq!(
        feed.potd_thumb_url.as_deref(),
        Some("https://example.com/thumb.jpg")
    );
    assert_eq!(feed.news.len(), 2);
    assert_eq!(feed.news[0].headline, "Enigma anniversary marked.");
    assert_eq!(feed.news[0].page_title.as_deref(), Some("Enigma machine"));
    assert_eq!(feed.news[1].headline, "A story with no links.");
    assert_eq!(feed.news[1].page_title, None);
    assert_eq!(feed.onthisday.len(), 1);
    assert_eq!(feed.onthisday[0].year, Some(1912));
    assert_eq!(feed.onthisday[0].text, "Turing born.");
    assert_eq!(feed.onthisday[0].page_title.as_deref(), Some("Alan Turing"));
    assert_eq!(feed.onthisday_events, 1);
}

#[test]
fn news_item_with_blank_story_is_dropped_not_shown_empty() {
    let body = br#"{"news": [{"story": "<a href=\"x\"></a>"}]}"#;
    let feed = parse_feed(body);
    assert!(
        feed.news.is_empty(),
        "an empty-after-stripping headline is dropped, not shown blank"
    );
}

#[test]
fn parse_onthisday_extracts_the_requested_type_key() {
    let body = br#"{"births": [
        {"text": "A scientist was born.", "year": 1901,
         "pages": [{"title": "Computer_science", "normalizedtitle": "Computer science"}]}
    ]}"#;
    let entries = parse_onthisday(&requested(body, "births"));
    assert_eq!(entries.len(), 1);
    assert_eq!(entries[0].year, Some(1901));
    assert_eq!(entries[0].text, "A scientist was born.");
    assert_eq!(entries[0].page_title.as_deref(), Some("Computer science"));
}

#[test]
fn parse_onthisday_tolerates_a_missing_or_mismatched_type_key() {
    let body = br#"{"deaths": [{"text": "irrelevant"}]}"#;
    let entries = parse_onthisday(&requested(body, "births"));
    assert!(entries.is_empty());
}

#[test]
fn feed_cache_fetches_once_per_day() {
    let mut cache = FeedCache::default();
    assert!(cache.should_fetch("2026-07-14"));
    cache.store("2026-07-14".to_string(), FeaturedFeed::default());
    assert!(!cache.should_fetch("2026-07-14"), "same day is a cache hit");
    assert!(cache.should_fetch("2026-07-15"), "a new day refetches");
}

#[test]
fn counts_of_millions_round_as_doubles_do() {
    for v in [
        999_999_u64, 1_000_000, 1_049_999, 1_050_000, 1_150_000, 1_250_000, 1_350_000, 1_450_000,
        9_949_999, 9_950_000, 999_950_000, 999_949_999, 123_456_789_012, 9_007_199_254_740_993,
        9_007_199_254_750_001, 18_446_744_073_709_551_615, 18_014_398_509_550_000, 5_350_000,
    ] {
        let expected = if v >= 1_000_000 {
            format!("{:.1}M", v as f64 / 1_000_000.0)
        } else {
            format!("{}k", v / 1_000)
        };
        assert_eq!(format_views(v), expected, "{v}");
    }
    for i in 0..400_u64 {
        let v = 1_000_000 + i * 50_000;
        assert_eq!(format_views(v), format!("{:.1}M", v as f64 / 1_000_000.0), "{v}");
    }
    assert_eq!(format_views(1_000), "1k");
    assert_eq!(format_views(999), "999");
}

#[test]
fn tags_are_dropped_and_an_open_one_takes_the_rest() {
    assert_eq!(strip_tags("a<b>c</b>d"), "acd");
    assert_eq!(strip_tags("a > b < c"), "a  b ");
    assert_eq!(strip_tags("x<unclosed"), "x");
}

#[test]
fn the_first_page_with_a_title_is_the_target() {
    let body = br#"{"onthisday": [{"text": "t", "year": 3000000000,
        "pages": [{"title": ""}, {"normalizedtitle": "", "title": "A_B"}]}]}"#;
    let feed = parse_feed(body);
    assert_eq!(feed.onthisday[0].page_title.as_deref(), Some("A_B"));
    assert_eq!(feed.onthisday[0].year, Some(3_000_000_000_i64 as i32));
}

#[test]
fn long_headlines_are_cut() {
    let raw = RawNewsItem { story: Some("x".repeat(FEED_TEXT_CAP + 1)), links: Vec::new() };
    let item = raw.into_item().unwrap();
    assert_eq!(item.headline, format!("{}…[truncated]", "x".repeat(FEED_TEXT_CAP)));
    assert!(RawNewsItem { story: None, links: Vec::new() }.into_item().is_none());
}

#[test]
fn a_stored_feed_is_the_one_that_is_read() {
    let mut cache = FeedCache::default();
    assert_eq!(cache.date(), None);
    assert!(cache.get().is_none());
    let mut feed = FeaturedFeed::default();
    feed.tfa = Some("T".to_string());
    cache.store("2026-07-14".to_string(), feed.clone());
    assert_eq!(cache.date(), Some("2026-07-14"));
    assert_eq!(cache.get(), Some(&feed));
}
