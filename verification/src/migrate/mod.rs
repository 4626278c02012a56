//! Bringing a wiki-tui configuration over: its colours to a theme, its keys to
//! a keymap file. What it does not know it reports.
pub mod colors;
pub mod import;
pub mod import_laws;
pub mod render;
pub mod render_laws;

pub use colors::{parse_hex_color, Color, SemanticSlots, ThemeSlot};
pub use import::{import_entries, import_from_text, ImportResult, MappedBinding};
pub use render::{
    keymap_file_name, numbered_name, render_keymap_toml, render_theme_toml, source_file, summarize,
    unique_choice, Source, Written,
};
