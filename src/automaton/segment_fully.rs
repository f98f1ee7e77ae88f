use vstd::prelude::*;
use crate::automaton::dictionary::StandardDictionary;
use crate::automaton::hits::char_hits;
use crate::laws::lemma_occurrences_within;
use crate::pattern_match::Match;
use crate::semantics::occurrences_by_end;
use crate::text::{lower_of, lowercase, CharText};
use crate::unmatched::{fill_gaps, located_all, segmentation, to_matches, BehaviorForUnmatched};

verus! {

/// Every pattern occurrence in `text`, overlapping ones
/// included, by end and, at one end, longest first; a gap is what no
/// occurrence covers.
/// The text is matched as given, with no case folding.
pub fn segment_fully_folded(
    text: &str,
    dict: &StandardDictionary,
    behavior_for_unmatched: BehaviorForUnmatched,
) -> (r: Vec<Match>)
    ensures
        located_all(
            r@,
            text@,
            segmentation(
                occurrences_by_end(dict@, text@, 1),
                text@.len(),
                behavior_for_unmatched,
            ),
        ),
{
    let chars = CharText::from_str(text);
    let found = dict.occurrences(text);
    proof {
        lemma_occurrences_within(dict@, text@, 1);
    }
    let hits = char_hits(&chars, &found, Ghost(occurrences_by_end(dict@, text@, 1)));
    let spans = fill_gaps(&hits, chars.chars.len(), behavior_for_unmatched);
    to_matches(&chars, &spans)
}

/// Every pattern occurrence in `text` case-folded, overlapping ones
/// included, by end and, at one end, longest first; a gap is what no
/// occurrence covers.
/// Ranges are byte offsets into the case-folded text, which differs from
/// `text` where folding changes a character's length.
pub fn segment_fully(
    text: &str,
    dict: &StandardDictionary,
    behavior_for_unmatched: BehaviorForUnmatched,
) -> (r: Vec<Match>)
    ensures
        located_all(
            r@,
            lower_of(text@),
            segmentation(
                occurrences_by_end(dict@, lower_of(text@), 1),
                lower_of(text@).len(),
                behavior_for_unmatched,
            ),
        ),
{
    let lowered = lowercase(text);
    segment_fully_folded(lowered.as_str(), dict, behavior_for_unmatched)
}

} // verus!
