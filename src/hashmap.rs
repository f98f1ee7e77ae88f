//! The baseline backend: every candidate substring is looked up in a hash map.
pub mod dictionary;
pub mod segment_backward_longest;
pub mod segment_bidirectional_longest;
pub mod segment_forward_longest;
pub mod segment_fully;

pub use dictionary::Dictionary;
pub use segment_backward_longest::{segment_backward_longest, segment_backward_longest_folded};
pub use segment_bidirectional_longest::{
    segment_bidirectional_longest, segment_bidirectional_longest_folded,
};
pub use segment_forward_longest::{segment_forward_longest, segment_forward_longest_folded};
pub use segment_fully::{segment_fully, segment_fully_folded};
