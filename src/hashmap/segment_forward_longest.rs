use vstd::prelude::*;
use crate::hashmap::dictionary::Dictionary;
use crate::pattern_match::Match;
use crate::semantics::{forward_from, lemma_last_hit, span_at};
use crate::text::{lower_of, lowercase, CharText};
use crate::unmatched::{
    fill_gaps, located_all, to_matches, segmentation, spans_of, spans_within, BehaviorForUnmatched,
};

verus! {

/// The confirmed matches of forward longest matching over `cs`, each
/// `(start, end, ordinal)` in characters.
pub(crate) fn forward_hits(dict: &Dictionary, cs: &Vec<char>) -> (hits: Vec<(usize, usize, u32)>)
    ensures
        spans_of(hits@) == forward_from(dict@, cs@, 0),
        spans_within(spans_of(hits@), cs@.len()),
{
    let ghost d = dict@;
    let mut hits: Vec<(usize, usize, u32)> = Vec::new();
    let mut i: usize = 0;
    proof {
        assert(spans_of(hits@) + forward_from(d, cs@, 0) =~= forward_from(d, cs@, 0));
    }
    while i < cs.len()
        invariant
            d == dict@,
            i <= cs@.len(),
            spans_of(hits@) + forward_from(d, cs@, i as int) == forward_from(d, cs@, 0),
            spans_within(spans_of(hits@), cs@.len()),
        decreases cs@.len() - i,
    {
        let (k, v) = dict.longest_from(cs, i);
        proof {
            lemma_last_hit(d, cs@, i as int, cs@.len() as int);
        }
        if k > i {
            let ghost before = spans_of(hits@);
            hits.push((i, k, v));
            proof {
                assert(spans_of(hits@) =~= before.push(span_at(d, cs@, i as int, k as int)));
                assert(before + forward_from(d, cs@, i as int) =~= spans_of(hits@) + forward_from(
                    d,
                    cs@,
                    k as int,
                ));
            }
            i = k;
        } else {
            i = i + 1;
        }
    }
    hits
}

/// Forward longest segmentation of `text`: from each position the
/// longest pattern is taken and the scan resumes where it ends.
/// The text is matched as given, with no case folding.
pub fn segment_forward_longest_folded(
    text: &str,
    dict: &Dictionary,
    behavior_for_unmatched: BehaviorForUnmatched,
) -> (r: Vec<Match>)
    ensures
        located_all(
            r@,
            text@,
            segmentation(
                forward_from(dict@, text@, 0),
                text@.len(),
                behavior_for_unmatched,
            ),
        ),
{
    let chars = CharText::from_str(text);
    let hits = forward_hits(dict, &chars.chars);
    let spans = fill_gaps(&hits, chars.chars.len(), behavior_for_unmatched);
    to_matches(&chars, &spans)
}

/// Forward longest segmentation of `text` case-folded: from each position the
/// longest pattern is taken and the scan resumes where it ends.
/// Ranges are byte offsets into the case-folded text, which differs from
/// `text` where folding changes a character's length.
pub fn segment_forward_longest(
    text: &str,
    dict: &Dictionary,
    behavior_for_unmatched: BehaviorForUnmatched,
) -> (r: Vec<Match>)
    ensures
        located_all(
            r@,
            lower_of(text@),
            segmentation(
                forward_from(dict@, lower_of(text@), 0),
                lower_of(text@).len(),
                behavior_for_unmatched,
            ),
        ),
{
    let lowered = lowercase(text);
    segment_forward_longest_folded(lowered.as_str(), dict, behavior_for_unmatched)
}

} // verus!
