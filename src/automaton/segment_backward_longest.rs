use vstd::prelude::*;
use crate::automaton::dictionary::BackwardDictionary;
use crate::automaton::hits::{char_hits, mirror_hits};
use crate::laws::lemma_forward_within;
use crate::pattern_match::Match;
use crate::semantics::{backward_upto, forward_from, lemma_reversal};
use crate::text::{lower_of, lowercase, reversed, CharText};
use crate::unmatched::{
    fill_gaps, located_all, segmentation, spans_of_all, to_matches, BehaviorForUnmatched,
};

verus! {

/// The spans of backward longest segmentation of `lowered`, whose characters
/// are `chars`: forward matching over the reversed text, carried back.
pub(crate) fn backward_spans(
    chars: &CharText,
    lowered: &str,
    dict: &BackwardDictionary,
    behavior_for_unmatched: BehaviorForUnmatched,
) -> (r: Vec<(usize, usize, Option<u32>)>)
    requires
        chars.wf(),
        chars.chars@ == lowered@,
    ensures
        spans_of_all(r@) == segmentation(
            backward_upto(dict@, lowered@, lowered@.len() as int),
            lowered@.len(),
            behavior_for_unmatched,
        ),
        forall|i: int| 0 <= i < r@.len() ==> (#[trigger] r@[i]).0 < r@[i].1 <= lowered@.len(),
{
    let flipped = reversed(&chars.chars);
    let flipped_chars = CharText::from_str(flipped.as_str());
    let found = dict.reversed_longest_matches(flipped.as_str());
    let ghost stored = dict.spec_stored();
    proof {
        lemma_forward_within(stored, flipped@);
        lemma_reversal(stored, lowered@);
    }
    let hits = char_hits(&flipped_chars, &found, Ghost(forward_from(stored, flipped@, 0)));
    let back = mirror_hits(&hits, chars.chars.len());
    fill_gaps(&back, chars.chars.len(), behavior_for_unmatched)
}

/// Backward longest segmentation of `text`: from each end
/// position the longest pattern ending there is taken and the scan resumes
/// where it starts. The matches come in text order.
/// The text is matched as given, with no case folding.
pub fn segment_backward_longest_folded(
    text: &str,
    dict: &BackwardDictionary,
    behavior_for_unmatched: BehaviorForUnmatched,
) -> (r: Vec<Match>)
    ensures
        located_all(
            r@,
            text@,
            segmentation(
                backward_upto(dict@, text@, text@.len() as int),
                text@.len(),
                behavior_for_unmatched,
            ),
        ),
{
    let chars = CharText::from_str(text);
    let spans = backward_spans(&chars, text, dict, behavior_for_unmatched);
    to_matches(&chars, &spans)
}

/// Backward longest segmentation of `text` case-folded: from each end
/// position the longest pattern ending there is taken and the scan resumes
/// where it starts. The matches come in text order.
/// Ranges are byte offsets into the case-folded text, which differs from
/// `text` where folding changes a character's length.
pub fn segment_backward_longest(
    text: &str,
    dict: &BackwardDictionary,
    behavior_for_unmatched: BehaviorForUnmatched,
) -> (r: Vec<Match>)
    ensures
        located_all(
            r@,
            lower_of(text@),
            segmentation(
                backward_upto(dict@, lower_of(text@), lower_of(text@).len() as int),
                lower_of(text@).len(),
                behavior_for_unmatched,
            ),
        ),
{
    let lowered = lowercase(text);
    segment_backward_longest_folded(lowered.as_str(), dict, behavior_for_unmatched)
}

} // verus!
