//! Commands, key chords, keymaps and what is shown of them.
pub mod chord;
pub mod command;
pub mod keymap;
pub mod sheets;
pub mod user_file;
pub mod user_file_laws;

pub use chord::{Chord, ChordCode, Key};
pub use command::{all_actions, commands, meta, Action, KeyContext, Meta};
pub use keymap::{Keymap, DEFAULT_LEADER};
pub use sheets::{
    palette_matches, picker_help, reading_help, reading_help_order, HelpRow, PaletteRow,
};
