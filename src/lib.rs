//! Dictionary-driven text segmentation for Chinese and mixed-script text.
pub mod automaton;
pub mod error;
pub mod extract;
pub mod hashmap;
pub mod keywords;
pub mod laws;
pub mod ngrams;
pub mod pattern_match;
pub mod prepare;
pub mod semantics;
pub mod text;
pub mod text_range;
pub mod trie;
pub mod unmatched;
pub mod utils;

pub use error::{BuildError, UltraNLPError};
pub use extract::{extract_consecutive_chinese_chars, extract_consecutive_letters};
pub use keywords::extract_keywords;
pub use ngrams::{ngrams, NgramsIterator};
pub use pattern_match::Match;
pub use text_range::TextRange;
pub use unmatched::BehaviorForUnmatched;
