use vstd::prelude::*;
use crate::automaton::hits::mirror_hits;
use crate::pattern_match::Match;
use crate::semantics::{backward_upto, forward_from, lemma_last_hit, lemma_reversal, span_at};
use crate::text::{lower_of, lowercase, reversed, CharText};
use crate::trie::dictionary::BackwardDictionary;
use crate::unmatched::{
    fill_gaps, located_all, segmentation, spans_of, spans_within, to_matches, BehaviorForUnmatched,
};

verus! {

/// The forward longest matches of the stored (reversed) patterns over `cs`,
/// meant to be a reversed text.
fn reversed_hits(dict: &BackwardDictionary, cs: &Vec<char>) -> (hits: Vec<(usize, usize, u32)>)
    ensures
        spans_of(hits@) == forward_from(dict.spec_stored(), cs@, 0),
        spans_within(spans_of(hits@), cs@.len()),
{
    let ghost d = dict.spec_stored();
    let mut hits: Vec<(usize, usize, u32)> = Vec::new();
    let mut i: usize = 0;
    proof {
        assert(spans_of(hits@) + forward_from(d, cs@, 0) =~= forward_from(d, cs@, 0));
    }
    while i < cs.len()
        invariant
            d == dict.spec_stored(),
            i <= cs@.len(),
            spans_of(hits@) + forward_from(d, cs@, i as int) == forward_from(d, cs@, 0),
            spans_within(spans_of(hits@), cs@.len()),
        decreases cs@.len() - i,
    {
        let (k, v) = dict.reversed_longest_from(cs, i);
        proof {
            lemma_last_hit(d, cs@, i as int, cs@.len() as int);
        }
        if k > i {
            let ghost before = spans_of(hits@);
            hits.push((i, k, v));
            proof {
                assert(spans_of(hits@) =~= before.push(span_at(d, cs@, i as int, k as int)));
                assert(before + forward_from(d, cs@, i as int) =~= spans_of(hits@) + forward_from(
                    d,
                    cs@,
                    k as int,
                ));
            }
            i = k;
        } else {
            i = i + 1;
        }
    }
    hits
}

/// Backward longest segmentation of `text`: from each end
/// position the longest pattern ending there is taken and the scan resumes
/// where it starts. The matches come in text order.
/// The text is matched as given, with no case folding.
pub fn segment_backward_longest_folded(
    text: &str,
    dict: &BackwardDictionary,
    behavior_for_unmatched: BehaviorForUnmatched,
) -> (r: Vec<Match>)
    ensures
        located_all(
            r@,
            text@,
            segmentation(
                backward_upto(dict@, text@, text@.len() as int),
                text@.len(),
                behavior_for_unmatched,
            ),
        ),
{
    let chars = CharText::from_str(text);
    let flipped = reversed(&chars.chars);
    let flipped_chars = CharText::from_str(flipped.as_str());
    let found = reversed_hits(dict, &flipped_chars.chars);
    let back = mirror_hits(&found, chars.chars.len());
    proof {
        lemma_reversal(dict.spec_stored(), text@);
        dict.lemma_stored();
    }
    let spans = fill_gaps(&back, chars.chars.len(), behavior_for_unmatched);
    to_matches(&chars, &spans)
}

/// Backward longest segmentation of `text` case-folded: from each end
/// position the longest pattern ending there is taken and the scan resumes
/// where it starts. The matches come in text order.
/// Ranges are byte offsets into the case-folded text, which differs from
/// `text` where folding changes a character's length.
pub fn segment_backward_longest(
    text: &str,
    dict: &BackwardDictionary,
    behavior_for_unmatched: BehaviorForUnmatched,
) -> (r: Vec<Match>)
    ensures
        located_all(
            r@,
            lower_of(text@),
            segmentation(
                backward_upto(dict@, lower_of(text@), lower_of(text@).len() as int),
                lower_of(text@).len(),
                behavior_for_unmatched,
            ),
        ),
{
    let lowered = lowercase(text);
    segment_backward_longest_folded(lowered.as_str(), dict, behavior_for_unmatched)
}

} // verus!
