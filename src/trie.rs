//! The trie backend: a double-array trie lists every pattern that starts at
//! a position of the text.
pub mod cedar;
pub mod dictionary;
pub mod segment_backward_longest;
pub mod segment_forward_longest;
pub mod segment_fully;

pub use dictionary::{BackwardDictionary, ForwardDictionary};
pub use segment_backward_longest::{segment_backward_longest, segment_backward_longest_folded};
pub use segment_forward_longest::{segment_forward_longest, segment_forward_longest_folded};
pub use segment_fully::{segment_fully, segment_fully_folded};
