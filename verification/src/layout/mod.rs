//! The layout engine: a document becomes terminal rows, and every mapping the
//! reader needs is computed from those rows.
pub mod breaks;
pub mod cache;
pub mod cache_laws;
pub mod card;
pub mod card_laws;
pub mod cluster;
pub mod document;
pub mod emit;
pub mod fill;
pub mod find_laws;
pub mod greedy_laws;
pub mod grid_laws;
pub mod justify_laws;
pub mod justify_rows;
pub mod laws;
pub mod link_laws;
pub mod link_order;
pub mod line;
pub mod mapping;
pub mod marker_laws;
pub mod measure;
pub mod order;
pub mod overflow;
pub mod page_laws;
pub mod plan_laws;
pub mod rows;
pub mod search;
pub mod search_laws;
pub mod show_laws;
pub mod table;
pub mod top_laws;
pub mod types;
pub mod width_laws;
pub mod wrap;

pub use cache::LayoutCache;
pub use cache::LayoutCacheKey;
pub use cache::DEFAULT_L1_CAPACITY;
pub use cache::LAYOUT_SCHEMA_VERSION;
pub use document::fold_body_counts;
pub use document::fold_range_end;
pub use document::layout_document;
pub use document::layout_document_with_images;
pub use document::size_tier;
pub use document::SizeTier;
pub use document::COMPACT_TIER_MIN_WIDTH;
pub use document::FLOOR_MIN_HEIGHT;
pub use document::FLOOR_MIN_WIDTH;
pub use document::FULL_TIER_MIN_WIDTH;
pub use measure::display_width;
pub use search::citation_needed_lines;
pub use search::find_matches;
pub use search::is_case_sensitive;
pub use types::ImageBoxes;
pub use types::ImageResolver;
pub use types::LaidLine;
pub use types::LaidSpan;
pub use types::Layout;
pub use types::LayoutOptions;
pub use types::MatchSpan;
pub use types::NoImages;
pub use types::Occurrence;
pub use types::SpanKind;
pub use types::TextAlign;
pub use types::IMAGE_MAX_COLS;
pub use types::IMAGE_MAX_ROWS;
pub use types::IMAGE_MIN_COLS;
