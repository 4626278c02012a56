//! What is fetched ahead of the reader, and why: ranked links, the day's feed.
pub mod feed;
pub mod feed_laws;
pub mod rank;
pub mod rank_laws;

pub use feed::{
    onthisday_entries, parse_onthisday, strip_tags, FeaturedFeed, FeedCache, MostRead, NewsItem,
    OtdEntry, RawArticle, RawFeed, RawNewsItem, RawOnThisDayItem, RawPage, FEED_EXTRACT_CAP,
    FEED_TEXT_CAP,
};
pub use rank::{
    format_views, link_reason, morelike_reason, rank_links, trending_reason, Field, RankedLink,
    LEAD_CUTOFF,
};
