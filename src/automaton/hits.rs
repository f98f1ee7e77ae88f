//! Carrying what the automaton reports into character positions.
use vstd::prelude::*;
use crate::automaton::acdat::at_offsets;
use crate::semantics::mirror;
use crate::text::{lemma_offset_strict, offset, CharText};
use crate::unmatched::{spans_of, spans_within, Span};

verus! {

proof fn lemma_offset_injective(cs: Seq<char>, i: int, j: int)
    requires
        0 <= i <= cs.len(),
        0 <= j <= cs.len(),
        offset(cs, i) == offset(cs, j),
    ensures
        i == j,
{
    if i < j {
        lemma_offset_strict(cs, i, j);
    } else if j < i {
        lemma_offset_strict(cs, j, i);
    }
}

/// The matches `found`, given in byte offsets of `text`, in characters.
pub(crate) fn char_hits(text: &CharText, found: &Vec<(usize, usize, u32)>, Ghost(ss): Ghost<
    Seq<Span>,
>) -> (r: Vec<(usize, usize, u32)>)
    requires
        text.wf(),
        at_offsets(found@, text.chars@, ss),
        spans_within(ss, text.len()),
    ensures
        spans_of(r@) == ss,
{
    let mut out: Vec<(usize, usize, u32)> = Vec::new();
    let mut i: usize = 0;
    while i < found.len()
        invariant
            text.wf(),
            at_offsets(found@, text.chars@, ss),
            spans_within(ss, text.len()),
            i <= found@.len(),
            spans_of(out@) == ss.take(i as int),
        decreases found@.len() - i,
    {
        let (b0, b1, v) = found[i];
        let ghost s = ss[i as int];
        proof {
            assert(found@[i as int].0 == offset(text.chars@, s.start as int));
            assert(s.start < s.end && s.end <= text.len());
        }
        let c0 = text.char_at_offset(b0);
        let c1 = text.char_at_offset(b1);
        proof {
            lemma_offset_injective(text.chars@, c0 as int, s.start as int);
            lemma_offset_injective(text.chars@, c1 as int, s.end as int);
        }
        let ghost before = spans_of(out@);
        out.push((c0, c1, v));
        proof {
            assert(spans_of(out@) =~= before.push(s));
            assert(ss.take(i + 1) =~= ss.take(i as int).push(s));
        }
        i = i + 1;
    }
    proof {
        assert(ss.take(i as int) =~= ss);
    }
    out
}

/// Matches found over the reversed text of `n` characters, carried back to
/// the text and put in text order.
pub(crate) fn mirror_hits(hits: &Vec<(usize, usize, u32)>, n: usize) -> (r: Vec<(usize, usize, u32)>)
    requires
        spans_within(spans_of(hits@), n as nat),
    ensures
        spans_of(r@) == mirror(spans_of(hits@), n as nat),
        spans_within(spans_of(r@), n as nat),
{
    let ghost ss = spans_of(hits@);
    let mut out: Vec<(usize, usize, u32)> = Vec::new();
    let mut t: usize = hits.len();
    while t > 0
        invariant
            ss == spans_of(hits@),
            spans_within(ss, n as nat),
            t <= hits@.len(),
            spans_of(out@) == mirror(ss, n as nat).take(hits@.len() - t),
        decreases t,
    {
        t = t - 1;
        let (s, e, v) = hits[t];
        proof {
            assert(ss[t as int].start < ss[t as int].end && ss[t as int].end <= n);
        }
        let ghost before = spans_of(out@);
        out.push((n - e, n - s, v));
        proof {
            let m = mirror(ss, n as nat);
            assert(m.take(hits@.len() - t) =~= m.take(hits@.len() - t - 1).push(m[hits@.len() - t - 1]));
            assert(spans_of(out@) =~= before.push(m[hits@.len() - t - 1]));
        }
    }
    proof {
        let m = mirror(ss, n as nat);
        assert(m.take(hits@.len() as int) =~= m);
        assert forall|i: int| 0 <= i < m.len() implies #[trigger] m[i].start < m[i].end && m[i].end <= n by {
            assert(ss[ss.len() - 1 - i].start < ss[ss.len() - 1 - i].end);
        }
    }
    out
}

} // verus!
