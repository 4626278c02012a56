//! A terminal reader's core: layout, key bindings, queues and stores.
pub mod doc;
pub mod doc_laws;
pub mod export_laws;
pub mod found_laws;
pub mod layout;
pub mod line_file;
pub mod lookup_laws;
pub mod macros;
pub mod migrate;
pub mod netqueue;
pub mod offline_search;
pub mod paths;
pub mod perflog;
pub mod prefetch;
pub mod privacy;
pub mod random;
pub mod registry;
pub mod research;
pub mod sanitize;
pub mod saved;
pub mod saved_export;
pub mod saved_laws;
pub mod search_ops;
pub mod text;
pub mod text_laws;
pub mod toml_text;
pub mod word_laws;
