//! Reading and rebuilding the dialogue scripts of a PS1 disc image.
//!
//! - `e0`: the script containers (pointer table and aligned sub-files);
//! - `script`: event script sub-files and their dialogue strings;
//! - `encoding`: the game's text encoding and the editor's display text;
//! - `round_trip`: showing a string and encoding it again;
//! - `iso`: raw CD sectors and the game's file table;
//! - `editor`: the editor's rules for applying translations.
pub mod bytes;
pub mod e0;
pub mod editor;
pub mod encoding;
pub mod iso;
pub mod round_trip;
pub mod script;
