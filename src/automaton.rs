//! The automaton backend: a double-array Aho-Corasick automaton finds every
//! occurrence, or the leftmost-longest ones, in one pass.
pub mod acdat;
pub mod dictionary;
pub mod hits;
pub mod segment_backward_longest;
pub mod segment_bidirectional_longest;
pub mod segment_forward_longest;
pub mod segment_fully;

pub use dictionary::{BackwardDictionary, ForwardDictionary, StandardDictionary};
pub use segment_backward_longest::{segment_backward_longest, segment_backward_longest_folded};
pub use segment_bidirectional_longest::{segment_bidirectional_longest, segment_bidirectional_longest_folded};
pub use segment_forward_longest::{segment_forward_longest, segment_forward_longest_folded};
pub use segment_fully::{segment_fully, segment_fully_folded};
