use vstd::prelude::*;
use crate::hashmap::dictionary::Dictionary;
use crate::hashmap::segment_backward_longest::backward_hits;
use crate::hashmap::segment_forward_longest::forward_hits;
use crate::pattern_match::Match;
use crate::semantics::{backward_upto, forward_from, prefer};
use crate::text::{lower_of, lowercase, CharText};
use crate::unmatched::{
    count_single_chars, fill_gaps, located_all, segmentation, to_matches, BehaviorForUnmatched,
};

verus! {

/// Forward and backward longest segmentation of `text`, of which
/// the one with fewer spans is returned; on a tie the one with fewer
/// single-character spans; on a further tie the backward one.
/// The text is matched as given, with no case folding.
pub fn segment_bidirectional_longest_folded(
    text: &str,
    dict: &Dictionary,
    behavior_for_unmatched: BehaviorForUnmatched,
) -> (r: Vec<Match>)
    ensures
        located_all(
            r@,
            text@,
            prefer(
                segmentation(
                    forward_from(dict@, text@, 0),
                    text@.len(),
                    behavior_for_unmatched,
                ),
                segmentation(
                    backward_upto(dict@, text@, text@.len() as int),
                    text@.len(),
                    behavior_for_unmatched,
                ),
            ),
        ),
{
    let chars = CharText::from_str(text);
    let n = chars.chars.len();
    let forward = fill_gaps(&forward_hits(dict, &chars.chars), n, behavior_for_unmatched);
    let backward = fill_gaps(&backward_hits(dict, &chars.chars), n, behavior_for_unmatched);
    let chosen = if forward.len() < backward.len() {
        forward
    } else if forward.len() > backward.len() {
        backward
    } else if count_single_chars(&forward) < count_single_chars(&backward) {
        forward
    } else {
        backward
    };
    to_matches(&chars, &chosen)
}

/// Forward and backward longest segmentation of `text` case-folded, of which
/// the one with fewer spans is returned; on a tie the one with fewer
/// single-character spans; on a further tie the backward one.
/// Ranges are byte offsets into the case-folded text, which differs from
/// `text` where folding changes a character's length.
pub fn segment_bidirectional_longest(
    text: &str,
    dict: &Dictionary,
    behavior_for_unmatched: BehaviorForUnmatched,
) -> (r: Vec<Match>)
    ensures
        located_all(
            r@,
            lower_of(text@),
            prefer(
                segmentation(
                    forward_from(dict@, lower_of(text@), 0),
                    lower_of(text@).len(),
                    behavior_for_unmatched,
                ),
                segmentation(
                    backward_upto(dict@, lower_of(text@), lower_of(text@).len() as int),
                    lower_of(text@).len(),
                    behavior_for_unmatched,
                ),
            ),
        ),
{
    let lowered = lowercase(text);
    segment_bidirectional_longest_folded(lowered.as_str(), dict, behavior_for_unmatched)
}

} // verus!
