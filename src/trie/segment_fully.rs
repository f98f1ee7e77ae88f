use vstd::prelude::*;
use crate::pattern_match::Match;
use crate::semantics::{fully_from, lemma_hits_at_bounds};
use crate::text::{lower_of, lowercase, CharText};
use crate::trie::dictionary::ForwardDictionary;
use crate::unmatched::{
    fill_gaps, located_all, segmentation, spans_of, spans_within, to_matches, BehaviorForUnmatched,
};

verus! {

/// Every pattern occurrence in `cs`, each `(start, end, ordinal)` in
/// characters, by start and then by end.
fn fully_hits(dict: &ForwardDictionary, cs: &Vec<char>) -> (hits: Vec<(usize, usize, u32)>)
    ensures
        spans_of(hits@) == fully_from(dict@, cs@, 0),
        spans_within(spans_of(hits@), cs@.len()),
{
    let ghost d = dict@;
    let mut hits: Vec<(usize, usize, u32)> = Vec::new();
    let mut i: usize = 0;
    proof {
        assert(spans_of(hits@) + fully_from(d, cs@, 0) =~= fully_from(d, cs@, 0));
    }
    while i < cs.len()
        invariant
            d == dict@,
            i <= cs@.len(),
            spans_of(hits@) + fully_from(d, cs@, i as int) == fully_from(d, cs@, 0),
            spans_within(spans_of(hits@), cs@.len()),
        decreases cs@.len() - i,
    {
        let here = dict.prefixes_at(cs, i);
        proof {
            lemma_hits_at_bounds(d, cs@, i as int, i + 1);
        }
        let ghost before = spans_of(hits@);
        let mut k: usize = 0;
        while k < here.len()
            invariant
                spans_of(hits@) == before + spans_of(here@).take(k as int),
                k <= here@.len(),
            decreases here@.len() - k,
        {
            let ghost prev = spans_of(hits@);
            hits.push(here[k]);
            proof {
                assert(spans_of(here@).take(k + 1) =~= spans_of(here@).take(k as int).push(
                    spans_of(here@)[k as int],
                ));
                assert(spans_of(hits@) =~= prev.push(spans_of(here@)[k as int]));
            }
            k = k + 1;
        }
        proof {
            assert(spans_of(here@).take(k as int) =~= spans_of(here@));
            let h = spans_of(here@);
            assert(fully_from(d, cs@, i as int) == h + fully_from(d, cs@, i + 1));
            assert(before + fully_from(d, cs@, i as int) =~= spans_of(hits@) + fully_from(
                d,
                cs@,
                i + 1,
            ));
            assert forall|q: int| 0 <= q < spans_of(hits@).len() implies #[trigger] spans_of(
                hits@,
            )[q].start < spans_of(hits@)[q].end && spans_of(hits@)[q].end <= cs@.len() by {
                if q >= before.len() {
                    assert(spans_of(hits@)[q] == h[q - before.len()]);
                } else {
                    assert(spans_of(hits@)[q] == before[q]);
                }
            }
        }
        i = i + 1;
    }
    proof {
        assert(spans_of(hits@) + fully_from(d, cs@, i as int) =~= spans_of(hits@));
    }
    hits
}

/// Every pattern occurrence in `text`, overlapping ones
/// included, by start and then by end; a gap is what no occurrence covers.
/// The text is matched as given, with no case folding.
pub fn segment_fully_folded(
    text: &str,
    dict: &ForwardDictionary,
    behavior_for_unmatched: BehaviorForUnmatched,
) -> (r: Vec<Match>)
    ensures
        located_all(
            r@,
            text@,
            segmentation(
                fully_from(dict@, text@, 0),
                text@.len(),
                behavior_for_unmatched,
            ),
        ),
{
    let chars = CharText::from_str(text);
    let hits = fully_hits(dict, &chars.chars);
    let spans = fill_gaps(&hits, chars.chars.len(), behavior_for_unmatched);
    to_matches(&chars, &spans)
}

/// Every pattern occurrence in `text` case-folded, overlapping ones
/// included, by start and then by end; a gap is what no occurrence covers.
/// Ranges are byte offsets into the case-folded text, which differs from
/// `text` where folding changes a character's length.
pub fn segment_fully(
    text: &str,
    dict: &ForwardDictionary,
    behavior_for_unmatched: BehaviorForUnmatched,
) -> (r: Vec<Match>)
    ensures
        located_all(
            r@,
            lower_of(text@),
            segmentation(
                fully_from(dict@, lower_of(text@), 0),
                lower_of(text@).len(),
                behavior_for_unmatched,
            ),
        ),
{
    let lowered = lowercase(text);
    segment_fully_folded(lowered.as_str(), dict, behavior_for_unmatched)
}

} // verus!
