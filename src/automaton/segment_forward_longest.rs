use vstd::prelude::*;
use crate::automaton::dictionary::ForwardDictionary;
use crate::automaton::hits::char_hits;
use crate::laws::lemma_forward_within;
use crate::pattern_match::Match;
use crate::semantics::forward_from;
use crate::text::{lower_of, lowercase, CharText};
use crate::unmatched::{
    fill_gaps, located_all, segmentation, spans_of_all, to_matches, BehaviorForUnmatched,
};

verus! {

/// The spans of forward longest segmentation of `lowered`, whose characters
/// are `chars`.
pub(crate) fn forward_spans(
    chars: &CharText,
    lowered: &str,
    dict: &ForwardDictionary,
    behavior_for_unmatched: BehaviorForUnmatched,
) -> (r: Vec<(usize, usize, Option<u32>)>)
    requires
        chars.wf(),
        chars.chars@ == lowered@,
    ensures
        spans_of_all(r@) == segmentation(
            forward_from(dict@, lowered@, 0),
            lowered@.len(),
            behavior_for_unmatched,
        ),
        forall|i: int| 0 <= i < r@.len() ==> (#[trigger] r@[i]).0 < r@[i].1 <= lowered@.len(),
{
    let found = dict.longest_matches(lowered);
    proof {
        lemma_forward_within(dict@, lowered@);
    }
    let hits = char_hits(chars, &found, Ghost(forward_from(dict@, lowered@, 0)));
    fill_gaps(&hits, chars.chars.len(), behavior_for_unmatched)
}

/// Forward longest segmentation of `text`: from each position the
/// longest pattern is taken and the scan resumes where it ends.
/// The text is matched as given, with no case folding.
pub fn segment_forward_longest_folded(
    text: &str,
    dict: &ForwardDictionary,
    behavior_for_unmatched: BehaviorForUnmatched,
) -> (r: Vec<Match>)
    ensures
        located_all(
            r@,
            text@,
            segmentation(
                forward_from(dict@, text@, 0),
                text@.len(),
                behavior_for_unmatched,
            ),
        ),
{
    let chars = CharText::from_str(text);
    let spans = forward_spans(&chars, text, dict, behavior_for_unmatched);
    to_matches(&chars, &spans)
}

/// Forward longest segmentation of `text` case-folded: from each position the
/// longest pattern is taken and the scan resumes where it ends.
/// Ranges are byte offsets into the case-folded text, which differs from
/// `text` where folding changes a character's length.
pub fn segment_forward_longest(
    text: &str,
    dict: &ForwardDictionary,
    behavior_for_unmatched: BehaviorForUnmatched,
) -> (r: Vec<Match>)
    ensures
        located_all(
            r@,
            lower_of(text@),
            segmentation(
                forward_from(dict@, lower_of(text@), 0),
                lower_of(text@).len(),
                behavior_for_unmatched,
            ),
        ),
{
    let lowered = lowercase(text);
    segment_forward_longest_folded(lowered.as_str(), dict, behavior_for_unmatched)
}

} // verus!
