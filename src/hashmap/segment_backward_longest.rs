use vstd::prelude::*;
use crate::hashmap::dictionary::Dictionary;
use crate::pattern_match::Match;
use crate::semantics::{backward_upto, lemma_first_hit, span_at};
use crate::text::{lower_of, lowercase, CharText};
use crate::unmatched::{
    fill_gaps, located_all, segmentation, spans_of, spans_within, to_matches, BehaviorForUnmatched,
};

verus! {

/// The confirmed matches of backward longest matching over `cs`, each
/// `(start, end, ordinal)` in characters, in text order.
pub(crate) fn backward_hits(dict: &Dictionary, cs: &Vec<char>) -> (hits: Vec<(usize, usize, u32)>)
    ensures
        spans_of(hits@) == backward_upto(dict@, cs@, cs@.len() as int),
        spans_within(spans_of(hits@), cs@.len()),
{
    let ghost d = dict@;
    let ghost n = cs@.len() as int;
    // Found from the end of the text towards its start.
    let mut found: Vec<(usize, usize, u32)> = Vec::new();
    let mut j: usize = cs.len();
    proof {
        assert(backward_upto(d, cs@, n) + spans_of(found@).reverse() =~= backward_upto(d, cs@, n));
    }
    while j > 0
        invariant
            d == dict@,
            n == cs@.len(),
            j <= n,
            backward_upto(d, cs@, j as int) + spans_of(found@).reverse() == backward_upto(d, cs@, n),
            spans_within(spans_of(found@), n as nat),
        decreases j,
    {
        let (k, v) = dict.longest_to(cs, j);
        proof {
            lemma_first_hit(d, cs@, 0, j as int);
        }
        if k < j {
            let ghost before = spans_of(found@);
            found.push((k, j, v));
            proof {
                let s = span_at(d, cs@, k as int, j as int);
                assert(spans_of(found@) =~= before.push(s));
                assert(spans_of(found@).reverse() =~= seq![s] + before.reverse());
                assert(backward_upto(d, cs@, j as int) =~= backward_upto(d, cs@, k as int) + seq![s]);
                assert(backward_upto(d, cs@, j as int) + before.reverse() =~= backward_upto(
                    d,
                    cs@,
                    k as int,
                ) + spans_of(found@).reverse());
            }
            j = k;
        } else {
            j = j - 1;
        }
    }
    proof {
        assert(backward_upto(d, cs@, 0) =~= Seq::<crate::unmatched::Span>::empty());
        assert(spans_of(found@).reverse() =~= backward_upto(d, cs@, n));
    }
    let mut hits: Vec<(usize, usize, u32)> = Vec::new();
    let mut t: usize = found.len();
    while t > 0
        invariant
            t <= found@.len(),
            hits@.len() == found@.len() - t,
            forall|q: int| 0 <= q < hits@.len() ==> #[trigger] hits@[q] == found@[found@.len() - 1 - q],
        decreases t,
    {
        t = t - 1;
        hits.push(found[t]);
    }
    proof {
        assert(hits@ =~= found@.reverse());
        assert(spans_of(hits@) =~= spans_of(found@).reverse());
        assert forall|i: int| 0 <= i < spans_of(hits@).len() implies #[trigger] spans_of(hits@)[i].start
            < spans_of(hits@)[i].end && spans_of(hits@)[i].end <= n by {
            let q = found@.len() - 1 - i;
            assert(spans_of(hits@)[i] == spans_of(found@)[q]);
            assert(spans_of(found@)[q].start < spans_of(found@)[q].end);
        }
        assert(spans_within(spans_of(hits@), cs@.len()));
    }
    hits
}

/// Backward longest segmentation of `text`: from each end
/// position the longest pattern ending there is taken and the scan resumes
/// where it starts. The matches come in text order.
/// The text is matched as given, with no case folding.
pub fn segment_backward_longest_folded(
    text: &str,
    dict: &Dictionary,
    behavior_for_unmatched: BehaviorForUnmatched,
) -> (r: Vec<Match>)
    ensures
        located_all(
            r@,
            text@,
            segmentation(
                backward_upto(dict@, text@, text@.len() as int),
                text@.len(),
                behavior_for_unmatched,
            ),
        ),
{
    let chars = CharText::from_str(text);
    let hits = backward_hits(dict, &chars.chars);
    let spans = fill_gaps(&hits, chars.chars.len(), behavior_for_unmatched);
    to_matches(&chars, &spans)
}

/// Backward longest segmentation of `text` case-folded: from each end
/// position the longest pattern ending there is taken and the scan resumes
/// where it starts. The matches come in text order.
/// Ranges are byte offsets into the case-folded text, which differs from
/// `text` where folding changes a character's length.
pub fn segment_backward_longest(
    text: &str,
    dict: &Dictionary,
    behavior_for_unmatched: BehaviorForUnmatched,
) -> (r: Vec<Match>)
    ensures
        located_all(
            r@,
            lower_of(text@),
            segmentation(
                backward_upto(dict@, lower_of(text@), lower_of(text@).len() as int),
                lower_of(text@).len(),
                behavior_for_unmatched,
            ),
        ),
{
    let lowered = lowercase(text);
    segment_backward_longest_folded(lowered.as_str(), dict, behavior_for_unmatched)
}

} // verus!
