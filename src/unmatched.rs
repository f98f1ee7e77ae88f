//! How the stretches of text that no pattern covers are reported, shared by
//! every backend and every segmentation strategy.
use vstd::prelude::*;
use crate::pattern_match::Match;
use crate::semantics::single_chars;
use crate::text::{CharText, offset, lemma_offset_monotone};
use crate::text_range::TextRange;

verus! {

/// Policy for text between confirmed matches.
#[derive(Debug, Copy, Clone, PartialEq, Eq, Structural)]
pub enum BehaviorForUnmatched {
    /// Report confirmed matches only.
    Ignore,
    /// Report each maximal gap as one filler span.
    KeepAsWords,
    /// Report each character of a gap as a filler span of its own.
    KeepAsChars,
}

/// A segment in character coordinates: characters `start..end`, and the
/// pattern ordinal for a confirmed match.
pub struct Span {
    pub start: nat,
    pub end: nat,
    pub index: Option<u32>,
}

/// The filler spans that `policy` reports for the gap `start..end`.
pub open spec fn gap(start: nat, end: nat, policy: BehaviorForUnmatched) -> Seq<Span> {
    match policy {
        BehaviorForUnmatched::Ignore => seq![],
        BehaviorForUnmatched::KeepAsWords => seq![Span { start, end, index: None }],
        BehaviorForUnmatched::KeepAsChars => Seq::new(
            (end - start) as nat,
            |k: int| Span { start: (start + k) as nat, end: (start + k + 1) as nat, index: None },
        ),
    }
}

pub open spec fn max_nat(a: nat, b: nat) -> nat {
    if a >= b {
        a
    } else {
        b
    }
}

/// The confirmed matches `ms`, in order, with the gaps of a text of `n`
/// characters reported by `policy`. `covered` is the farthest end reached by
/// the matches before `ms`: a match starting beyond it opens a gap.
pub open spec fn fill(ms: Seq<Span>, covered: nat, n: nat, policy: BehaviorForUnmatched) -> Seq<
    Span,
>
    decreases ms.len(),
{
    if ms.len() == 0 {
        if covered < n {
            gap(covered, n, policy)
        } else {
            seq![]
        }
    } else {
        let m = ms[0];
        let before = if covered < m.start {
            gap(covered, m.start, policy)
        } else {
            seq![]
        };
        before + seq![m] + fill(ms.drop_first(), max_nat(covered, m.end), n, policy)
    }
}

/// The spans that segmenting a text of `n` characters reports, given its
/// confirmed matches in order.
pub open spec fn segmentation(ms: Seq<Span>, n: nat, policy: BehaviorForUnmatched) -> Seq<Span> {
    fill(ms, 0, n, policy)
}

/// `m` is the span `s` of the characters `cs`, in byte offsets.
pub open spec fn located(m: Match, cs: Seq<char>, s: Span) -> bool {
    &&& m.spec_range().start() == offset(cs, s.start as int)
    &&& m.spec_range().end() == offset(cs, s.end as int)
    &&& m.spec_index() == s.index
}

/// The matches `ms` are the spans `ss` of the characters `cs`, one for one.
pub open spec fn located_all(ms: Seq<Match>, cs: Seq<char>, ss: Seq<Span>) -> bool {
    &&& ms.len() == ss.len()
    &&& forall|i: int| 0 <= i < ms.len() ==> #[trigger] located(ms[i], cs, ss[i])
}

/// Spans that lie within a text of `n` characters, each non-empty.
pub open spec fn spans_within(ss: Seq<Span>, n: nat) -> bool {
    forall|i: int| 0 <= i < ss.len() ==> #[trigger] ss[i].start < ss[i].end && ss[i].end <= n
}

/// A span held as `(start, end, ordinal)` in characters.
pub open spec fn span_of(t: (usize, usize, Option<u32>)) -> Span {
    Span { start: t.0 as nat, end: t.1 as nat, index: t.2 }
}

pub open spec fn spans_of_all(ts: Seq<(usize, usize, Option<u32>)>) -> Seq<Span> {
    ts.map_values(|t: (usize, usize, Option<u32>)| span_of(t))
}

/// The confirmed matches, each `(start, end, ordinal)` in characters, as spans.
pub open spec fn spans_of(hits: Seq<(usize, usize, u32)>) -> Seq<Span> {
    hits.map_values(
        |h: (usize, usize, u32)| Span { start: h.0 as nat, end: h.1 as nat, index: Some(h.2) },
    )
}

/// Appends the filler spans that `policy` reports for characters `start..end`.
fn push_gap(out: &mut Vec<(usize, usize, Option<u32>)>, start: usize, end: usize, policy: BehaviorForUnmatched)
    requires
        start < end,
    ensures
        spans_of_all(final(out)@) == spans_of_all(old(out)@) + gap(start as nat, end as nat, policy),
        forall|i: int| old(out)@.len() <= i < final(out)@.len() ==> (#[trigger] final(out)@[i]).0 < final(out)@[i].1 <= end,
        final(out)@.len() >= old(out)@.len(),
        forall|i: int| 0 <= i < old(out)@.len() ==> #[trigger] final(out)@[i] == old(out)@[i],
{
    match policy {
        BehaviorForUnmatched::Ignore => {
            assert(spans_of_all(out@) =~= spans_of_all(out@) + gap(start as nat, end as nat, policy));
        },
        BehaviorForUnmatched::KeepAsWords => {
            out.push((start, end, None));
            assert(spans_of_all(out@) =~= spans_of_all(old(out)@) + gap(start as nat, end as nat, policy));
        },
        BehaviorForUnmatched::KeepAsChars => {
            let ghost base = old(out)@;
            let mut k: usize = start;
            while k < end
                invariant
                    start <= k <= end,
                    policy == BehaviorForUnmatched::KeepAsChars,
                    spans_of_all(out@) == spans_of_all(base) + gap(start as nat, end as nat, policy).take(k - start),
                    forall|i: int| base.len() <= i < out@.len() ==> (#[trigger] out@[i]).0 < out@[i].1 <= end,
                    out@.len() >= base.len(),
                    forall|i: int| 0 <= i < base.len() ==> #[trigger] out@[i] == base[i],
                decreases end - k,
            {
                let ghost prev = out@;
                out.push((k, k + 1, None));
                proof {
                    let g = gap(start as nat, end as nat, policy);
                    assert(g.take(k + 1 - start) =~= g.take(k - start).push(g[k - start]));
                    assert(spans_of_all(out@) =~= spans_of_all(prev).push(span_of((k, (k + 1) as usize, None))));
                }
                k = k + 1;
            }
            assert(gap(start as nat, end as nat, policy).take(end - start) =~= gap(start as nat, end as nat, policy));
        },
    }
}

/// The spans reported for a text of `n` characters with the confirmed
/// matches `hits`, in order, and the gaps that `policy` keeps.
pub(crate) fn fill_gaps(hits: &Vec<(usize, usize, u32)>, n: usize, policy: BehaviorForUnmatched) -> (r:
    Vec<(usize, usize, Option<u32>)>)
    requires
        spans_within(spans_of(hits@), n as nat),
    ensures
        spans_of_all(r@) == segmentation(spans_of(hits@), n as nat, policy),
        forall|i: int| 0 <= i < r@.len() ==> (#[trigger] r@[i]).0 < r@[i].1 <= n,
{
    let ghost ms = spans_of(hits@);
    let mut out: Vec<(usize, usize, Option<u32>)> = Vec::new();
    let mut covered: usize = 0;
    let mut i: usize = 0;
    proof {
        assert(ms.skip(0) =~= ms);
        assert(spans_of_all(out@) + fill(ms, 0, n as nat, policy) =~= fill(ms, 0, n as nat, policy));
    }
    while i < hits.len()
        invariant
            ms == spans_of(hits@),
            spans_within(ms, n as nat),
            0 <= i <= hits@.len(),
            covered <= n,
            spans_of_all(out@) + fill(ms.skip(i as int), covered as nat, n as nat, policy)
                == segmentation(ms, n as nat, policy),
            forall|q: int| 0 <= q < out@.len() ==> (#[trigger] out@[q]).0 < out@[q].1 <= n,
        decreases hits@.len() - i,
    {
        let (start, end, index) = hits[i];
        let ghost rest = ms.skip(i as int);
        let ghost done = spans_of_all(out@);
        proof {
            assert(rest[0] == ms[i as int]);
            assert(rest.drop_first() =~= ms.skip(i + 1));
            assert(ms[i as int].start < ms[i as int].end <= n);
        }
        let ghost before = if covered < start {
            gap(covered as nat, start as nat, policy)
        } else {
            seq![]
        };
        if covered < start {
            push_gap(&mut out, covered, start, policy);
        } else {
            assert(spans_of_all(out@) =~= done + before);
        }
        let ghost mid = spans_of_all(out@);
        out.push((start, end, Some(index)));
        proof {
            let s = Span { start: start as nat, end: end as nat, index: Some(index) };
            assert(s == ms[i as int]);
            assert(spans_of_all(out@) =~= mid.push(s));
            assert(done + fill(rest, covered as nat, n as nat, policy) =~= spans_of_all(out@) + fill(
                ms.skip(i + 1),
                max_nat(covered as nat, end as nat),
                n as nat,
                policy,
            ));
        }
        if covered < end {
            covered = end;
        }
        i = i + 1;
    }
    proof {
        assert(ms.skip(i as int).len() == 0);
    }
    let ghost done = spans_of_all(out@);
    if covered < n {
        push_gap(&mut out, covered, n, policy);
    } else {
        assert(spans_of_all(out@) =~= done + seq![]);
    }
    out
}

/// The spans as matches over `text`, in byte offsets.
pub(crate) fn to_matches(text: &CharText, spans: &Vec<(usize, usize, Option<u32>)>) -> (r: Vec<Match>)
    requires
        text.wf(),
        forall|i: int| 0 <= i < spans@.len() ==> (#[trigger] spans@[i]).0 <= spans@[i].1 <= text.len(),
    ensures
        located_all(r@, text.chars@, spans_of_all(spans@)),
{
    let mut out: Vec<Match> = Vec::new();
    let mut i: usize = 0;
    while i < spans.len()
        invariant
            text.wf(),
            forall|q: int| 0 <= q < spans@.len() ==> (#[trigger] spans@[q]).0 <= spans@[q].1 <= text.len(),
            i <= spans@.len(),
            out@.len() == i,
            forall|q: int| 0 <= q < i ==> #[trigger] located(out@[q], text.chars@, span_of(spans@[q])),
        decreases spans@.len() - i,
    {
        let (start, end, index) = spans[i];
        proof {
            lemma_offset_monotone(text.chars@, start as int, end as int);
        }
        let range = TextRange::new(text.offsets[start], text.offsets[end]);
        out.push(Match::new(range, index));
        i = i + 1;
    }
    proof {
        assert forall|q: int| 0 <= q < out@.len() implies #[trigger] located(out@[q], text.chars@, spans_of_all(spans@)[q]) by {
            assert(located(out@[q], text.chars@, span_of(spans@[q])));
        }
    }
    out
}

/// Number of spans of exactly one character.
pub(crate) fn count_single_chars(spans: &Vec<(usize, usize, Option<u32>)>) -> (r: usize)
    ensures
        r == single_chars(spans_of_all(spans@)),
{
    let mut count: usize = 0;
    let mut i: usize = 0;
    while i < spans.len()
        invariant
            i <= spans@.len(),
            count <= i,
            count == single_chars(spans_of_all(spans@.take(i as int))),
        decreases spans@.len() - i,
    {
        let ghost prefix = spans_of_all(spans@.take(i as int));
        proof {
            assert(spans_of_all(spans@.take(i + 1)).drop_last() =~= prefix);
        }
        let (start, end, _) = spans[i];
        if end > start && end - start == 1 {
            count = count + 1;
        }
        i = i + 1;
    }
    proof {
        assert(spans@.take(i as int) =~= spans@);
    }
    count
}

} // verus!
