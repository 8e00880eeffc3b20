//! Dictionary-driven phonetic transliteration of mixed-script text.
//!
//! The engine segments an input string by right-to-left maximum matching
//! against a merged dictionary of single characters and multi-character
//! words, looks up the pronunciation of each unit, and keeps every
//! untranslatable character in place.  Results come back either as one
//! concatenated string or as a token sequence, with or without tone marks.

mod engine;
pub mod laws;
pub mod model;
mod text;

pub use engine::PinyinTranslator;

pub use text::SliceError;
pub use text::chars_to_string;
pub use text::str_chars;
pub use text::substring;
pub use text::substring_len;
