//! Verified core of a command-line EPUB narrator.
pub mod chars;
pub mod text;
pub mod tts_engine;
pub mod book;
pub mod paths;
pub mod export;
pub mod cli;
pub mod audio;
pub mod text_laws;
pub mod normalize_laws;
pub mod wrap_laws;
