use vstd::prelude::*;
use crate::hashmap::dictionary::Dictionary;
use crate::pattern_match::Match;
use crate::semantics::{fully_from, hits_at, span_at};
use crate::text::{lower_of, lowercase, push_char, CharText};
use crate::unmatched::{
    fill_gaps, located_all, segmentation, spans_of, spans_within, to_matches, BehaviorForUnmatched,
};

verus! {

/// Every pattern occurrence in `cs`, each `(start, end, ordinal)` in
/// characters, by start and then by end.
pub(crate) fn fully_hits(dict: &Dictionary, cs: &Vec<char>) -> (hits: Vec<(usize, usize, u32)>)
    ensures
        spans_of(hits@) == fully_from(dict@, cs@, 0),
        spans_within(spans_of(hits@), cs@.len()),
{
    let ghost d = dict@;
    let mut hits: Vec<(usize, usize, u32)> = Vec::new();
    let mut i: usize = 0;
    proof {
        assert(spans_of(hits@) + fully_from(d, cs@, 0) =~= fully_from(d, cs@, 0));
    }
    while i < cs.len()
        invariant
            d == dict@,
            i <= cs@.len(),
            spans_of(hits@) + fully_from(d, cs@, i as int) == fully_from(d, cs@, 0),
            spans_within(spans_of(hits@), cs@.len()),
        decreases cs@.len() - i,
    {
        let mut key = String::new();
        let mut j: usize = i;
        proof {
            assert(key@ =~= cs@.subrange(i as int, i as int));
            assert(fully_from(d, cs@, i as int) == hits_at(d, cs@, i as int, i + 1) + fully_from(
                d,
                cs@,
                i + 1,
            ));
        }
        while j < cs.len()
            invariant
                d == dict@,
                i < cs@.len(),
                i <= j <= cs@.len(),
                key@ == cs@.subrange(i as int, j as int),
                spans_of(hits@) + hits_at(d, cs@, i as int, j + 1) + fully_from(d, cs@, i + 1)
                    == fully_from(d, cs@, 0),
                spans_within(spans_of(hits@), cs@.len()),
            decreases cs@.len() - j,
        {
            push_char(&mut key, cs[j]);
            j = j + 1;
            proof {
                assert(key@ =~= cs@.subrange(i as int, j as int));
            }
            let ghost before = spans_of(hits@);
            match dict.lookup(key.as_str()) {
                Some(v) => {
                    hits.push((i, j, v));
                    proof {
                        assert(spans_of(hits@) =~= before.push(span_at(d, cs@, i as int, j as int)));
                        assert(before + hits_at(d, cs@, i as int, j as int) =~= spans_of(hits@)
                            + hits_at(d, cs@, i as int, j + 1));
                    }
                },
                None => {
                    proof {
                        assert(before + hits_at(d, cs@, i as int, j as int) =~= before + hits_at(
                            d,
                            cs@,
                            i as int,
                            j + 1,
                        ));
                    }
                },
            }
        }
        proof {
            assert(hits_at(d, cs@, i as int, j + 1) =~= Seq::<crate::unmatched::Span>::empty());
            assert(spans_of(hits@) + hits_at(d, cs@, i as int, j + 1) =~= spans_of(hits@));
        }
        i = i + 1;
    }
    proof {
        assert(spans_of(hits@) + fully_from(d, cs@, i as int) =~= spans_of(hits@));
    }
    hits
}

/// Every pattern occurrence in `text`, overlapping ones
/// included, by start and then by end; a gap is what no occurrence covers.
/// The text is matched as given, with no case folding.
pub fn segment_fully_folded(
    text: &str,
    dict: &Dictionary,
    behavior_for_unmatched: BehaviorForUnmatched,
) -> (r: Vec<Match>)
    ensures
        located_all(
            r@,
            text@,
            segmentation(
                fully_from(dict@, text@, 0),
                text@.len(),
                behavior_for_unmatched,
            ),
        ),
{
    let chars = CharText::from_str(text);
    let hits = fully_hits(dict, &chars.chars);
    let spans = fill_gaps(&hits, chars.chars.len(), behavior_for_unmatched);
    to_matches(&chars, &spans)
}

/// Every pattern occurrence in `text` case-folded, overlapping ones
/// included, by start and then by end; a gap is what no occurrence covers.
/// Ranges are byte offsets into the case-folded text, which differs from
/// `text` where folding changes a character's length.
pub fn segment_fully(
    text: &str,
    dict: &Dictionary,
    behavior_for_unmatched: BehaviorForUnmatched,
) -> (r: Vec<Match>)
    ensures
        located_all(
            r@,
            lower_of(text@),
            segmentation(
                fully_from(dict@, lower_of(text@), 0),
                lower_of(text@).len(),
                behavior_for_unmatched,
            ),
        ),
{
    let lowered = lowercase(text);
    segment_fully_folded(lowered.as_str(), dict, behavior_for_unmatched)
}

} // verus!
