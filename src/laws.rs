//! Properties that hold of every dictionary and every text, relating the
//! segmentation strategies and policies to one another.
use vstd::prelude::*;
use vstd::utf8::encode_utf8;
use crate::pattern_match::Match;
use crate::semantics::{
    backward_upto, ends_at, first_hit, forward_from, fully_from, hit, hits_at, last_hit,
    lemma_first_hit, lemma_hits_at_bounds, lemma_last_hit, occurrences_by_end, prefer, span_at,
};
use crate::text::{lemma_offset_monotone, offset};
use crate::unmatched::{
    fill, gap, located, located_all, max_nat, segmentation, spans_within, BehaviorForUnmatched, Span,
};

verus! {

/// Spans in order, each non-empty, none starting before the end of the one
/// before it or before `c`, none ending after `n`.
pub open spec fn chain(ms: Seq<Span>, c: nat, n: nat) -> bool
    decreases ms.len(),
{
    if ms.len() == 0 {
        c <= n
    } else {
        c <= ms[0].start && ms[0].start < ms[0].end && chain(ms.drop_first(), ms[0].end, n)
    }
}

/// Non-empty spans that follow one another without gap or overlap from
/// `from` to `to`.
pub open spec fn tiles(ss: Seq<Span>, from: nat, to: nat) -> bool
    decreases ss.len(),
{
    if ss.len() == 0 {
        from == to
    } else {
        ss[0].start == from && ss[0].start < ss[0].end && tiles(ss.drop_first(), ss[0].end, to)
    }
}

/// The byte ranges of `ms` follow one another from offset 0 to offset `len`:
/// the texts they address, put together in order, are the whole text.
pub open spec fn covers(ms: Seq<Match>, len: nat) -> bool {
    &&& ms.len() == 0 ==> len == 0
    &&& ms.len() > 0 ==> ms[0].spec_range().start() == 0 && ms.last().spec_range().end() == len
    &&& forall|i: int|
        0 <= i < ms.len() - 1 ==> (#[trigger] ms[i]).spec_range().end() == ms[i
            + 1].spec_range().start()
    &&& forall|i: int|
        0 <= i < ms.len() ==> (#[trigger] ms[i]).spec_range().start() <= ms[i].spec_range().end()
}

/// The bytes that the ranges of `ms` address in `bytes`, put together in order.
pub open spec fn spelled(ms: Seq<Match>, bytes: Seq<u8>) -> Seq<u8>
    decreases ms.len(),
{
    if ms.len() == 0 {
        seq![]
    } else {
        spelled(ms.drop_last(), bytes) + bytes.subrange(
            ms.last().spec_range().start() as int,
            ms.last().spec_range().end() as int,
        )
    }
}

proof fn lemma_spelled_prefix(ms: Seq<Match>, bytes: Seq<u8>, k: int)
    requires
        covers(ms, bytes.len()),
        0 < k <= ms.len(),
    ensures
        ms[k - 1].spec_range().end() <= bytes.len(),
        spelled(ms.take(k), bytes) == bytes.subrange(0, ms[k - 1].spec_range().end() as int),
    decreases k,
{
    lemma_ends_bounded(ms, bytes.len(), k - 1);
    let t = ms.take(k);
    assert(t.drop_last() =~= ms.take(k - 1));
    assert(t.last() == ms[k - 1]);
    if k == 1 {
        assert(ms.take(0) =~= Seq::<Match>::empty());
        assert(spelled(t.drop_last(), bytes) =~= Seq::<u8>::empty());
        assert(ms[0].spec_range().start() == 0);
        assert(spelled(t, bytes) =~= bytes.subrange(0, ms[0].spec_range().end() as int));
    } else {
        lemma_spelled_prefix(ms, bytes, k - 1);
        assert(ms[k - 2].spec_range().end() == ms[k - 1].spec_range().start());
        assert(spelled(t, bytes) =~= bytes.subrange(0, ms[k - 1].spec_range().end() as int));
    }
}

proof fn lemma_ends_bounded(ms: Seq<Match>, len: nat, k: int)
    requires
        covers(ms, len),
        0 <= k < ms.len(),
    ensures
        ms[k].spec_range().end() <= len,
    decreases ms.len() - k,
{
    if k < ms.len() - 1 {
        lemma_ends_bounded(ms, len, k + 1);
        assert(ms[k].spec_range().end() == ms[k + 1].spec_range().start());
        assert(ms[k + 1].spec_range().start() <= ms[k + 1].spec_range().end());
    }
}

proof fn lemma_spelled(ms: Seq<Match>, bytes: Seq<u8>)
    requires
        covers(ms, bytes.len()),
    ensures
        spelled(ms, bytes) == bytes,
{
    if ms.len() == 0 {
        assert(bytes =~= Seq::<u8>::empty());
    } else {
        lemma_spelled_prefix(ms, bytes, ms.len() as int);
        assert(ms.take(ms.len() as int) =~= ms);
        assert(bytes.subrange(0, bytes.len() as int) =~= bytes);
    }
}

/// The confirmed matches among `ss`, in order.
pub open spec fn confirmed(ss: Seq<Span>) -> Seq<Span>
    decreases ss.len(),
{
    if ss.len() == 0 {
        seq![]
    } else {
        (if ss[0].index is Some {
            seq![ss[0]]
        } else {
            seq![]
        }) + confirmed(ss.drop_first())
    }
}

proof fn lemma_chain_weaken(ms: Seq<Span>, c: nat, c2: nat, n: nat, n2: nat)
    requires
        chain(ms, c, n),
        c2 <= c,
        n <= n2,
    ensures
        chain(ms, c2, n2),
    decreases ms.len(),
{
    if ms.len() > 0 {
        lemma_chain_weaken(ms.drop_first(), ms[0].end, ms[0].end, n, n2);
    }
}

proof fn lemma_chain_push(ms: Seq<Span>, c: nat, s: Span, n: nat)
    requires
        chain(ms, c, s.start),
        s.start < s.end <= n,
    ensures
        chain(ms.push(s), c, n),
    decreases ms.len(),
{
    let t = ms.push(s);
    if ms.len() == 0 {
        assert(t.drop_first() =~= Seq::<Span>::empty());
        assert(t[0] == s);
        assert(chain(t.drop_first(), s.end, n));
    } else {
        assert(t.drop_first() =~= ms.drop_first().push(s));
        assert(t[0] == ms[0]);
        lemma_chain_push(ms.drop_first(), ms[0].end, s, n);
    }
}

proof fn lemma_forward_chain(d: Map<Seq<char>, u32>, cs: Seq<char>, i: int)
    requires
        0 <= i <= cs.len(),
    ensures
        chain(forward_from(d, cs, i), i as nat, cs.len()),
    decreases cs.len() - i,
{
    if i < cs.len() {
        let k = last_hit(d, cs, i, cs.len() as int);
        lemma_last_hit(d, cs, i, cs.len() as int);
        if i < k {
            lemma_forward_chain(d, cs, k);
            let ss = forward_from(d, cs, i);
            assert(ss.drop_first() =~= forward_from(d, cs, k));
        } else {
            lemma_forward_chain(d, cs, i + 1);
            lemma_chain_weaken(forward_from(d, cs, i + 1), (i + 1) as nat, i as nat, cs.len(), cs.len());
        }
    }
}

proof fn lemma_backward_chain(d: Map<Seq<char>, u32>, cs: Seq<char>, j: int)
    requires
        0 <= j <= cs.len(),
    ensures
        chain(backward_upto(d, cs, j), 0, j as nat),
    decreases j,
{
    if j > 0 {
        let k = first_hit(d, cs, 0, j);
        lemma_first_hit(d, cs, 0, j);
        if k < j {
            lemma_backward_chain(d, cs, k);
            let s = Span { start: k as nat, end: j as nat, index: Some(d[cs.subrange(k, j)]) };
            lemma_chain_push(backward_upto(d, cs, k), 0, s, j as nat);
            assert(backward_upto(d, cs, k).push(s) =~= backward_upto(d, cs, j));
        } else {
            lemma_backward_chain(d, cs, j - 1);
            lemma_chain_weaken(backward_upto(d, cs, j - 1), 0, 0, (j - 1) as nat, j as nat);
        }
    }
}

proof fn lemma_tiles_concat(a: Seq<Span>, b: Seq<Span>, x: nat, y: nat, z: nat)
    requires
        tiles(a, x, y),
        tiles(b, y, z),
    ensures
        tiles(a + b, x, z),
    decreases a.len(),
{
    if a.len() == 0 {
        assert(a + b =~= b);
    } else {
        assert((a + b).drop_first() =~= a.drop_first() + b);
        lemma_tiles_concat(a.drop_first(), b, a[0].end, y, z);
    }
}

proof fn lemma_gap_tiles(a: nat, b: nat, p: BehaviorForUnmatched)
    requires
        a < b,
        p != BehaviorForUnmatched::Ignore,
    ensures
        tiles(gap(a, b, p), a, b),
    decreases b - a,
{
    let g = gap(a, b, p);
    if p == BehaviorForUnmatched::KeepAsWords {
        assert(g.drop_first() =~= Seq::<Span>::empty());
        assert(tiles(g.drop_first(), b, b));
    } else {
        assert(g.len() == b - a);
        assert(g[0] == Span { start: a, end: a + 1, index: None });
        if a + 1 < b {
            lemma_gap_tiles(a + 1, b, p);
            assert(g.drop_first() =~= gap(a + 1, b, p));
        } else {
            assert(g.drop_first() =~= Seq::<Span>::empty());
            assert(tiles(g.drop_first(), a + 1, b));
        }
    }
}

proof fn lemma_fill_tiles(ms: Seq<Span>, c: nat, n: nat, p: BehaviorForUnmatched)
    requires
        chain(ms, c, n),
        p != BehaviorForUnmatched::Ignore,
    ensures
        tiles(fill(ms, c, n, p), c, n),
    decreases ms.len(),
{
    if ms.len() == 0 {
        if c < n {
            lemma_gap_tiles(c, n, p);
        }
    } else {
        let m = ms[0];
        lemma_fill_tiles(ms.drop_first(), m.end, n, p);
        assert(max_nat(c, m.end) == m.end);
        let rest = fill(ms.drop_first(), m.end, n, p);
        assert(seq![m].drop_first() + rest =~= rest);
        assert((seq![m] + rest).drop_first() =~= rest);
        if c < m.start {
            lemma_gap_tiles(c, m.start, p);
            lemma_tiles_concat(gap(c, m.start, p), seq![m] + rest, c, m.start, n);
            assert(fill(ms, c, n, p) =~= gap(c, m.start, p) + (seq![m] + rest));
        } else {
            assert(fill(ms, c, n, p) =~= seq![m] + rest);
        }
    }
}

proof fn lemma_tiles_index(ss: Seq<Span>, from: nat, to: nat)
    requires
        tiles(ss, from, to),
    ensures
        ss.len() == 0 ==> from == to,
        ss.len() > 0 ==> ss[0].start == from && ss.last().end == to,
        forall|i: int| 0 <= i < ss.len() - 1 ==> (#[trigger] ss[i]).end == ss[i + 1].start,
        forall|i: int| 0 <= i < ss.len() ==> (#[trigger] ss[i]).start < ss[i].end,
    decreases ss.len(),
{
    if ss.len() > 0 {
        let rest = ss.drop_first();
        lemma_tiles_index(rest, ss[0].end, to);
        assert forall|i: int| 0 <= i < ss.len() - 1 implies (#[trigger] ss[i]).end == ss[i + 1].start by {
            if i > 0 {
                assert(ss[i] == rest[i - 1]);
                assert(ss[i + 1] == rest[i]);
            }
        }
        assert forall|i: int| 0 <= i < ss.len() implies (#[trigger] ss[i]).start < ss[i].end by {
            if i > 0 {
                assert(ss[i] == rest[i - 1]);
            }
        }
        if rest.len() > 0 {
            assert(ss.last() == rest.last());
        }
    }
}

proof fn lemma_located_covers(r: Seq<Match>, cs: Seq<char>, ss: Seq<Span>)
    requires
        located_all(r, cs, ss),
        tiles(ss, 0, cs.len()),
    ensures
        covers(r, encode_utf8(cs).len()),
{
    lemma_tiles_index(ss, 0, cs.len());
    assert(cs.take(0) =~= Seq::<char>::empty());
    assert(cs.take(cs.len() as int) =~= cs);
    assert(offset(cs, 0) == 0);
    assert(offset(cs, cs.len() as int) == encode_utf8(cs).len());
    if r.len() > 0 {
        assert(located(r[0], cs, ss[0]));
        assert(located(r[r.len() - 1], cs, ss[ss.len() - 1]));
    }
    assert forall|i: int| 0 <= i < r.len() - 1 implies (#[trigger] r[i]).spec_range().end() == r[i
        + 1].spec_range().start() by {
        assert(located(r[i], cs, ss[i]));
        assert(located(r[i + 1], cs, ss[i + 1]));
        assert(ss[i].end == ss[i + 1].start);
    }
    assert forall|i: int| 0 <= i < r.len() implies (#[trigger] r[i]).spec_range().start()
        <= r[i].spec_range().end() by {
        assert(located(r[i], cs, ss[i]));
        lemma_tiles_ordered(ss, 0, cs.len(), i);
        lemma_offset_monotone(cs, ss[i].start as int, ss[i].end as int);
    }
}

proof fn lemma_tiles_ordered(ss: Seq<Span>, from: nat, to: nat, i: int)
    requires
        tiles(ss, from, to),
        0 <= i < ss.len(),
    ensures
        from <= ss[i].start < ss[i].end <= to,
    decreases ss.len(),
{
    if i > 0 {
        lemma_tiles_ordered(ss.drop_first(), ss[0].end, to, i - 1);
        assert(ss[i] == ss.drop_first()[i - 1]);
    } else {
        lemma_tiles_index(ss.drop_first(), ss[0].end, to);
        if ss.len() > 1 {
            lemma_tiles_ordered(ss.drop_first(), ss[0].end, to, ss.len() - 2);
        }
    }
}

/// With a policy that keeps gaps, the ranges that forward longest
/// segmentation reports follow one another from the start of the case-folded
/// text to its end: together, in order, they spell out the whole text.
pub proof fn law_forward_covers_text(
    d: Map<Seq<char>, u32>,
    cs: Seq<char>,
    policy: BehaviorForUnmatched,
    r: Seq<Match>,
)
    requires
        policy != BehaviorForUnmatched::Ignore,
        located_all(r, cs, segmentation(forward_from(d, cs, 0), cs.len(), policy)),
    ensures
        covers(r, encode_utf8(cs).len()),
        spelled(r, encode_utf8(cs)) == encode_utf8(cs),
{
    lemma_forward_chain(d, cs, 0);
    lemma_fill_tiles(forward_from(d, cs, 0), 0, cs.len(), policy);
    lemma_located_covers(r, cs, segmentation(forward_from(d, cs, 0), cs.len(), policy));
    lemma_spelled(r, encode_utf8(cs));
}

/// With a policy that keeps gaps, the ranges that backward longest
/// segmentation reports follow one another from the start of the case-folded
/// text to its end.
pub proof fn law_backward_covers_text(
    d: Map<Seq<char>, u32>,
    cs: Seq<char>,
    policy: BehaviorForUnmatched,
    r: Seq<Match>,
)
    requires
        policy != BehaviorForUnmatched::Ignore,
        located_all(r, cs, segmentation(backward_upto(d, cs, cs.len() as int), cs.len(), policy)),
    ensures
        covers(r, encode_utf8(cs).len()),
        spelled(r, encode_utf8(cs)) == encode_utf8(cs),
{
    lemma_backward_chain(d, cs, cs.len() as int);
    lemma_fill_tiles(backward_upto(d, cs, cs.len() as int), 0, cs.len(), policy);
    lemma_located_covers(
        r,
        cs,
        segmentation(backward_upto(d, cs, cs.len() as int), cs.len(), policy),
    );
    lemma_spelled(r, encode_utf8(cs));
}

/// With a policy that keeps gaps, the ranges that bidirectional longest
/// segmentation reports follow one another from the start of the case-folded
/// text to its end.
pub proof fn law_bidirectional_covers_text(
    forward_dict: Map<Seq<char>, u32>,
    backward_dict: Map<Seq<char>, u32>,
    cs: Seq<char>,
    policy: BehaviorForUnmatched,
    r: Seq<Match>,
)
    requires
        policy != BehaviorForUnmatched::Ignore,
        located_all(
            r,
            cs,
            prefer(
                segmentation(forward_from(forward_dict, cs, 0), cs.len(), policy),
                segmentation(backward_upto(backward_dict, cs, cs.len() as int), cs.len(), policy),
            ),
        ),
    ensures
        covers(r, encode_utf8(cs).len()),
        spelled(r, encode_utf8(cs)) == encode_utf8(cs),
{
    let f = segmentation(forward_from(forward_dict, cs, 0), cs.len(), policy);
    let b = segmentation(backward_upto(backward_dict, cs, cs.len() as int), cs.len(), policy);
    if prefer(f, b) == f {
        law_forward_covers_text(forward_dict, cs, policy, r);
    } else {
        law_backward_covers_text(backward_dict, cs, policy, r);
    }
}

/// The matches among `ms` that carry a pattern ordinal, in order.
pub open spec fn confirmed_matches(ms: Seq<Match>) -> Seq<Match>
    decreases ms.len(),
{
    if ms.len() == 0 {
        seq![]
    } else {
        (if ms[0].spec_index() is Some {
            seq![ms[0]]
        } else {
            seq![]
        }) + confirmed_matches(ms.drop_first())
    }
}

proof fn lemma_confirmed_concat(a: Seq<Span>, b: Seq<Span>)
    ensures
        confirmed(a + b) == confirmed(a) + confirmed(b),
    decreases a.len(),
{
    if a.len() == 0 {
        assert(a + b =~= b);
        assert(confirmed(a) + confirmed(b) =~= confirmed(b));
    } else {
        assert((a + b).drop_first() =~= a.drop_first() + b);
        lemma_confirmed_concat(a.drop_first(), b);
        assert((a + b)[0] == a[0]);
        let head = if a[0].index is Some {
            seq![a[0]]
        } else {
            seq![]
        };
        assert(head + (confirmed(a.drop_first()) + confirmed(b)) =~= (head + confirmed(
            a.drop_first(),
        )) + confirmed(b));
    }
}

proof fn lemma_gap_unconfirmed(a: nat, b: nat, p: BehaviorForUnmatched)
    requires
        a <= b,
    ensures
        confirmed(gap(a, b, p)) == Seq::<Span>::empty(),
    decreases b - a,
{
    let g = gap(a, b, p);
    if p == BehaviorForUnmatched::KeepAsWords {
        assert(g.drop_first() =~= Seq::<Span>::empty());
        assert(g[0].index is None);
        assert(confirmed(g.drop_first()) =~= Seq::<Span>::empty());
        assert(confirmed(g) =~= Seq::<Span>::empty());
    } else if p == BehaviorForUnmatched::KeepAsChars && a < b {
        lemma_gap_unconfirmed(a + 1, b, p);
        assert(g.drop_first() =~= gap(a + 1, b, p));
        assert(g[0].index is None);
        assert(confirmed(g) == Seq::<Span>::empty() + confirmed(g.drop_first()));
        assert(confirmed(g) =~= Seq::<Span>::empty());
    } else {
        assert(g.len() == 0);
    }
}

proof fn lemma_fill_confirmed(ms: Seq<Span>, c: nat, n: nat, p: BehaviorForUnmatched)
    requires
        forall|i: int| 0 <= i < ms.len() ==> (#[trigger] ms[i]).index is Some,
    ensures
        confirmed(fill(ms, c, n, p)) == ms,
    decreases ms.len(),
{
    if ms.len() == 0 {
        if c < n {
            lemma_gap_unconfirmed(c, n, p);
        }
    } else {
        let m = ms[0];
        let rest = fill(ms.drop_first(), max_nat(c, m.end), n, p);
        let before = if c < m.start {
            gap(c, m.start, p)
        } else {
            seq![]
        };
        if c < m.start {
            lemma_gap_unconfirmed(c, m.start, p);
        }
        assert(confirmed(before) =~= Seq::<Span>::empty());
        lemma_fill_confirmed(ms.drop_first(), max_nat(c, m.end), n, p);
        lemma_confirmed_concat(before, seq![m] + rest);
        lemma_confirmed_concat(seq![m], rest);
        assert(ms[0].index is Some);
        assert(seq![m].drop_first() =~= Seq::<Span>::empty());
        assert(confirmed(seq![m].drop_first()) =~= Seq::<Span>::empty());
        assert(confirmed(seq![m]) =~= seq![m]);
        assert(fill(ms, c, n, p) =~= before + (seq![m] + rest));
        assert(seq![m] + ms.drop_first() =~= ms);
        assert(Seq::<Span>::empty() + (seq![m] + ms.drop_first()) =~= ms);
    }
}

proof fn lemma_hits_at_confirmed(d: Map<Seq<char>, u32>, cs: Seq<char>, i: int, j: int)
    ensures
        forall|k: int| 0 <= k < hits_at(d, cs, i, j).len() ==> (#[trigger] hits_at(d, cs, i, j)[k]).index is Some,
    decreases cs.len() + 1 - j,
{
    if j <= cs.len() && j > i {
        lemma_hits_at_confirmed(d, cs, i, j + 1);
        let head = if hit(d, cs, i, j) {
            seq![Span { start: i as nat, end: j as nat, index: Some(d[cs.subrange(i, j)]) }]
        } else {
            seq![]
        };
        assert(hits_at(d, cs, i, j) =~= head + hits_at(d, cs, i, j + 1));
        assert forall|k: int| 0 <= k < hits_at(d, cs, i, j).len() implies (#[trigger] hits_at(d, cs, i, j)[k]).index is Some by {
            if k >= head.len() {
                assert(hits_at(d, cs, i, j)[k] == hits_at(d, cs, i, j + 1)[k - head.len()]);
            }
        }
    }
}

proof fn lemma_fully_confirmed(d: Map<Seq<char>, u32>, cs: Seq<char>, i: int)
    ensures
        forall|k: int| 0 <= k < fully_from(d, cs, i).len() ==> (#[trigger] fully_from(d, cs, i)[k]).index is Some,
    decreases cs.len() - i,
{
    if 0 <= i < cs.len() {
        lemma_fully_confirmed(d, cs, i + 1);
        lemma_hits_at_confirmed(d, cs, i, i + 1);
        let h = hits_at(d, cs, i, i + 1);
        assert forall|k: int| 0 <= k < fully_from(d, cs, i).len() implies (#[trigger] fully_from(d, cs, i)[k]).index is Some by {
            if k < h.len() {
                assert(fully_from(d, cs, i)[k] == h[k]);
            } else {
                assert(fully_from(d, cs, i)[k] == fully_from(d, cs, i + 1)[k - h.len()]);
            }
        }
    }
}

proof fn lemma_confirmed_located(r: Seq<Match>, cs: Seq<char>, ss: Seq<Span>)
    requires
        located_all(r, cs, ss),
    ensures
        located_all(confirmed_matches(r), cs, confirmed(ss)),
    decreases r.len(),
{
    if r.len() > 0 {
        let r2 = r.drop_first();
        let s2 = ss.drop_first();
        assert forall|i: int| 0 <= i < r2.len() implies #[trigger] located(r2[i], cs, s2[i]) by {
            assert(located(r[i + 1], cs, ss[i + 1]));
        }
        lemma_confirmed_located(r2, cs, s2);
        assert(located(r[0], cs, ss[0]));
        let cr = confirmed_matches(r);
        let cc = confirmed(ss);
        if r[0].spec_index() is Some {
            assert forall|i: int| 0 <= i < cr.len() implies #[trigger] located(cr[i], cs, cc[i]) by {
                if i > 0 {
                    assert(cr[i] == confirmed_matches(r2)[i - 1]);
                    assert(cc[i] == confirmed(s2)[i - 1]);
                }
            }
        } else {
            assert(cr =~= confirmed_matches(r2));
            assert(cc =~= confirmed(s2));
        }
    }
}

/// Whatever the policy, the confirmed matches that fully segmentation
/// reports are the same: every occurrence of every pattern, by start and then
/// by end. Policies differ only in the filler spans around them.
pub proof fn law_fully_confirmed_independent_of_policy(
    d: Map<Seq<char>, u32>,
    cs: Seq<char>,
    policy: BehaviorForUnmatched,
    r: Seq<Match>,
)
    requires
        located_all(r, cs, segmentation(fully_from(d, cs, 0), cs.len(), policy)),
    ensures
        confirmed(segmentation(fully_from(d, cs, 0), cs.len(), policy)) == fully_from(d, cs, 0),
        located_all(confirmed_matches(r), cs, fully_from(d, cs, 0)),
{
    lemma_fully_confirmed(d, cs, 0);
    lemma_fill_confirmed(fully_from(d, cs, 0), 0, cs.len(), policy);
    lemma_confirmed_located(r, cs, segmentation(fully_from(d, cs, 0), cs.len(), policy));
}

/// Span `s` is a pattern occurrence that no longer pattern starting at the
/// same character extends rightward.
pub open spec fn longest_rightward(d: Map<Seq<char>, u32>, cs: Seq<char>, s: Span) -> bool {
    &&& s.start < s.end <= cs.len()
    &&& hit(d, cs, s.start as int, s.end as int)
    &&& s.index == Some(d[cs.subrange(s.start as int, s.end as int)])
    &&& forall|j: int| s.end < j <= cs.len() ==> !#[trigger] hit(d, cs, s.start as int, j)
}

/// Span `s` is a pattern occurrence that no longer pattern ending at the
/// same character extends leftward.
pub open spec fn longest_leftward(d: Map<Seq<char>, u32>, cs: Seq<char>, s: Span) -> bool {
    &&& s.start < s.end <= cs.len()
    &&& hit(d, cs, s.start as int, s.end as int)
    &&& s.index == Some(d[cs.subrange(s.start as int, s.end as int)])
    &&& forall|k: int| 0 <= k < s.start ==> !#[trigger] hit(d, cs, k, s.end as int)
}

proof fn lemma_forward_longest(d: Map<Seq<char>, u32>, cs: Seq<char>, i: int)
    requires
        0 <= i <= cs.len(),
    ensures
        forall|k: int| 0 <= k < forward_from(d, cs, i).len() ==> longest_rightward(d, cs, #[trigger] forward_from(d, cs, i)[k]),
    decreases cs.len() - i,
{
    if i < cs.len() {
        let k = last_hit(d, cs, i, cs.len() as int);
        lemma_last_hit(d, cs, i, cs.len() as int);
        if i < k {
            lemma_forward_longest(d, cs, k);
            let ss = forward_from(d, cs, i);
            assert(ss.drop_first() =~= forward_from(d, cs, k));
            assert(ss[0] == span_at(d, cs, i, k));
            assert(longest_rightward(d, cs, ss[0]));
            assert forall|q: int| 0 <= q < ss.len() implies longest_rightward(d, cs, #[trigger] ss[q]) by {
                if q > 0 {
                    assert(ss[q] == forward_from(d, cs, k)[q - 1]);
                }
            }
        } else {
            lemma_forward_longest(d, cs, i + 1);
            assert(forward_from(d, cs, i) == forward_from(d, cs, i + 1));
        }
    }
}

proof fn lemma_backward_longest(d: Map<Seq<char>, u32>, cs: Seq<char>, j: int)
    requires
        0 <= j <= cs.len(),
    ensures
        forall|q: int| 0 <= q < backward_upto(d, cs, j).len() ==> longest_leftward(d, cs, #[trigger] backward_upto(d, cs, j)[q]),
    decreases j,
{
    if j > 0 {
        let k = first_hit(d, cs, 0, j);
        lemma_first_hit(d, cs, 0, j);
        if k < j {
            lemma_backward_longest(d, cs, k);
            let ss = backward_upto(d, cs, j);
            let pre = backward_upto(d, cs, k);
            assert(ss == pre + seq![span_at(d, cs, k, j)]);
            assert(ss[pre.len() as int] == span_at(d, cs, k, j));
            assert(longest_leftward(d, cs, span_at(d, cs, k, j)));
            assert forall|q: int| 0 <= q < ss.len() implies longest_leftward(d, cs, #[trigger] ss[q]) by {
                if q < pre.len() {
                    assert(ss[q] == pre[q]);
                }
            }
        } else {
            lemma_backward_longest(d, cs, j - 1);
            assert(backward_upto(d, cs, j) == backward_upto(d, cs, j - 1));
        }
    }
}

/// Every confirmed match of forward longest segmentation is a pattern
/// occurrence that no longer pattern starting at the same character extends.
pub proof fn law_forward_longest_match(d: Map<Seq<char>, u32>, cs: Seq<char>)
    ensures
        forall|k: int| 0 <= k < forward_from(d, cs, 0).len() ==> longest_rightward(d, cs, #[trigger] forward_from(d, cs, 0)[k]),
{
    lemma_forward_longest(d, cs, 0);
}

/// Every confirmed match of backward longest segmentation is a pattern
/// occurrence that no longer pattern ending at the same character extends.
pub proof fn law_backward_longest_match(d: Map<Seq<char>, u32>, cs: Seq<char>)
    ensures
        forall|k: int| 0 <= k < backward_upto(d, cs, cs.len() as int).len() ==> longest_leftward(d, cs, #[trigger] backward_upto(d, cs, cs.len() as int)[k]),
{
    lemma_backward_longest(d, cs, cs.len() as int);
}

proof fn lemma_chain_within(ms: Seq<Span>, c: nat, n: nat)
    requires
        chain(ms, c, n),
    ensures
        spans_within(ms, n),
    decreases ms.len(),
{
    if ms.len() > 0 {
        lemma_chain_within(ms.drop_first(), ms[0].end, n);
        lemma_chain_weaken(ms.drop_first(), ms[0].end, 0, n, n);
        assert forall|i: int| 0 <= i < ms.len() implies #[trigger] ms[i].start < ms[i].end && ms[i].end <= n by {
            if i > 0 {
                assert(ms[i] == ms.drop_first()[i - 1]);
            } else {
                lemma_chain_first_end(ms.drop_first(), ms[0].end, n);
            }
        }
    }
}

proof fn lemma_chain_first_end(ms: Seq<Span>, c: nat, n: nat)
    requires
        chain(ms, c, n),
    ensures
        c <= n,
    decreases ms.len(),
{
    if ms.len() > 0 {
        lemma_chain_first_end(ms.drop_first(), ms[0].end, n);
    }
}

/// The spans of forward longest matching lie within the text.
pub proof fn lemma_forward_within(d: Map<Seq<char>, u32>, cs: Seq<char>)
    ensures
        spans_within(forward_from(d, cs, 0), cs.len()),
{
    lemma_forward_chain(d, cs, 0);
    lemma_chain_within(forward_from(d, cs, 0), 0, cs.len());
}

proof fn lemma_ends_at_within(d: Map<Seq<char>, u32>, cs: Seq<char>, k: int, j: int)
    requires
        0 <= k,
        j <= cs.len(),
    ensures
        spans_within(ends_at(d, cs, k, j), cs.len()),
    decreases j - k,
{
    if k < j {
        lemma_ends_at_within(d, cs, k + 1, j);
        let head = if hit(d, cs, k, j) {
            seq![span_at(d, cs, k, j)]
        } else {
            seq![]
        };
        let e = ends_at(d, cs, k, j);
        assert(e =~= head + ends_at(d, cs, k + 1, j));
        assert forall|i: int| 0 <= i < e.len() implies #[trigger] e[i].start < e[i].end && e[i].end <= cs.len() by {
            if i >= head.len() {
                assert(e[i] == ends_at(d, cs, k + 1, j)[i - head.len()]);
            }
        }
    }
}

/// The occurrences an automaton reports lie within the text.
pub proof fn lemma_occurrences_within(d: Map<Seq<char>, u32>, cs: Seq<char>, j: int)
    requires
        j >= 1,
    ensures
        spans_within(occurrences_by_end(d, cs, j), cs.len()),
    decreases cs.len() + 1 - j,
{
    if j <= cs.len() {
        lemma_occurrences_within(d, cs, j + 1);
        lemma_ends_at_within(d, cs, 0, j);
        let a = ends_at(d, cs, 0, j);
        let o = occurrences_by_end(d, cs, j);
        assert forall|i: int| 0 <= i < o.len() implies #[trigger] o[i].start < o[i].end && o[i].end <= cs.len() by {
            if i < a.len() {
                assert(o[i] == a[i]);
            } else {
                assert(o[i] == occurrences_by_end(d, cs, j + 1)[i - a.len()]);
            }
        }
    }
}

proof fn lemma_ends_at_confirmed(d: Map<Seq<char>, u32>, cs: Seq<char>, k: int, j: int)
    ensures
        forall|q: int| 0 <= q < ends_at(d, cs, k, j).len() ==> (#[trigger] ends_at(d, cs, k, j)[q]).index is Some,
    decreases j - k,
{
    if 0 <= k < j {
        lemma_ends_at_confirmed(d, cs, k + 1, j);
        let head = if hit(d, cs, k, j) {
            seq![span_at(d, cs, k, j)]
        } else {
            seq![]
        };
        let e = ends_at(d, cs, k, j);
        assert(e =~= head + ends_at(d, cs, k + 1, j));
        assert forall|q: int| 0 <= q < e.len() implies (#[trigger] e[q]).index is Some by {
            if q >= head.len() {
                assert(e[q] == ends_at(d, cs, k + 1, j)[q - head.len()]);
            }
        }
    }
}

proof fn lemma_occurrences_confirmed(d: Map<Seq<char>, u32>, cs: Seq<char>, j: int)
    ensures
        forall|q: int| 0 <= q < occurrences_by_end(d, cs, j).len() ==> (#[trigger] occurrences_by_end(d, cs, j)[q]).index is Some,
    decreases cs.len() + 1 - j,
{
    if 0 < j <= cs.len() {
        lemma_occurrences_confirmed(d, cs, j + 1);
        lemma_ends_at_confirmed(d, cs, 0, j);
        let a = ends_at(d, cs, 0, j);
        let o = occurrences_by_end(d, cs, j);
        assert forall|q: int| 0 <= q < o.len() implies (#[trigger] o[q]).index is Some by {
            if q < a.len() {
                assert(o[q] == a[q]);
            } else {
                assert(o[q] == occurrences_by_end(d, cs, j + 1)[q - a.len()]);
            }
        }
    }
}

/// Whatever the policy, the confirmed matches that fully segmentation in
/// automaton order reports are the same: every occurrence of every pattern,
/// by end and, at one end, longest first.
pub proof fn law_occurrences_confirmed_independent_of_policy(
    d: Map<Seq<char>, u32>,
    cs: Seq<char>,
    policy: BehaviorForUnmatched,
    r: Seq<Match>,
)
    requires
        located_all(r, cs, segmentation(occurrences_by_end(d, cs, 1), cs.len(), policy)),
    ensures
        confirmed(segmentation(occurrences_by_end(d, cs, 1), cs.len(), policy))
            == occurrences_by_end(d, cs, 1),
        located_all(confirmed_matches(r), cs, occurrences_by_end(d, cs, 1)),
{
    lemma_occurrences_confirmed(d, cs, 1);
    lemma_fill_confirmed(occurrences_by_end(d, cs, 1), 0, cs.len(), policy);
    lemma_confirmed_located(r, cs, segmentation(occurrences_by_end(d, cs, 1), cs.len(), policy));
}

/// Every character position from `from` up to `n` lies in a span of `ss`
/// that ends by `n`.
pub open spec fn covers_positions(ss: Seq<Span>, from: nat, n: nat) -> bool {
    forall|x: nat| from <= x < n ==> #[trigger] covered_at(ss, x, n)
}

/// Position `x` lies in a span of `ss` that ends by `n`.
pub open spec fn covered_at(ss: Seq<Span>, x: nat, n: nat) -> bool {
    exists|k: int| 0 <= k < ss.len() && (#[trigger] ss[k]).start <= x < ss[k].end && ss[k].end <= n
}

/// Every byte offset before `len` lies in the range of a match of `ms`.
pub open spec fn covers_bytes(ms: Seq<Match>, len: nat) -> bool {
    forall|q: nat| q < len ==> #[trigger] byte_covered(ms, q)
}

/// Byte offset `q` lies in the range of a match of `ms`.
pub open spec fn byte_covered(ms: Seq<Match>, q: nat) -> bool {
    exists|k: int|
        0 <= k < ms.len() && (#[trigger] ms[k]).spec_range().start() <= q < ms[k].spec_range().end()
}

/// Spans by start.
pub open spec fn sorted_by_start(ms: Seq<Span>) -> bool {
    forall|i: int, j: int| 0 <= i < j < ms.len() ==> #[trigger] ms[i].start <= #[trigger] ms[j].start
}

/// Spans `a` and `b` share no position.
pub open spec fn disjoint(a: Span, b: Span) -> bool {
    a.end <= b.start || b.end <= a.start
}

proof fn lemma_gap_covers(a: nat, b: nat, p: BehaviorForUnmatched)
    requires
        a < b,
        p != BehaviorForUnmatched::Ignore,
    ensures
        covers_positions(gap(a, b, p), a, b),
{
    let g = gap(a, b, p);
    assert forall|x: nat| a <= x < b implies #[trigger] covered_at(g, x, b) by {
        if p == BehaviorForUnmatched::KeepAsWords {
            assert(g[0].start <= x < g[0].end);
        } else {
            let k = x - a;
            assert(g[k].start <= x < g[k].end);
        }
    }
}

proof fn lemma_fill_covers(ms: Seq<Span>, c: nat, n: nat, p: BehaviorForUnmatched)
    requires
        p != BehaviorForUnmatched::Ignore,
        spans_within(ms, n),
    ensures
        covers_positions(fill(ms, c, n, p), c, n),
    decreases ms.len(),
{
    let out = fill(ms, c, n, p);
    if ms.len() == 0 {
        if c < n {
            lemma_gap_covers(c, n, p);
        }
    } else {
        let m = ms[0];
        assert(m.start < m.end && m.end <= n);
        let rest = ms.drop_first();
        assert forall|i: int| 0 <= i < rest.len() implies #[trigger] rest[i].start < rest[i].end
            && rest[i].end <= n by {
            assert(rest[i] == ms[i + 1]);
        }
        let c2 = max_nat(c, m.end);
        lemma_fill_covers(rest, c2, n, p);
        let before = if c < m.start {
            gap(c, m.start, p)
        } else {
            seq![]
        };
        let tail = fill(rest, c2, n, p);
        if c < m.start {
            lemma_gap_covers(c, m.start, p);
        }
        assert(out == before + seq![m] + tail);
        assert forall|x: nat| c <= x < n implies #[trigger] covered_at(out, x, n) by {
            if x < m.start && c < m.start {
                assert(covered_at(before, x, m.start));
                let k = choose|k: int|
                    0 <= k < before.len() && (#[trigger] before[k]).start <= x < before[k].end
                        && before[k].end <= m.start;
                assert(out[k] == before[k]);
            } else if x < m.end {
                assert(out[before.len() as int] == m);
            } else {
                assert(covered_at(tail, x, n));
                let k = choose|k: int|
                    0 <= k < tail.len() && (#[trigger] tail[k]).start <= x < tail[k].end
                        && tail[k].end <= n;
                assert(out[before.len() + 1 + k] == tail[k]);
            }
        }
    }
}

proof fn lemma_fill_fillers(ms: Seq<Span>, c: nat, n: nat, p: BehaviorForUnmatched)
    requires
        p != BehaviorForUnmatched::Ignore,
        spans_within(ms, n),
        sorted_by_start(ms),
        c <= n,
        forall|j: int| 0 <= j < ms.len() ==> (#[trigger] ms[j]).index is Some,
    ensures
        ({
            let out = fill(ms, c, n, p);
            &&& forall|k: int|
                0 <= k < out.len() && (#[trigger] out[k]).index is None ==> c <= out[k].start
                    < out[k].end <= n
            &&& forall|k: int, j: int|
                0 <= k < out.len() && 0 <= j < ms.len() && (#[trigger] out[k]).index is None
                    ==> disjoint(out[k], #[trigger] ms[j])
            &&& forall|k1: int, k2: int|
                0 <= k1 < k2 < out.len() && (#[trigger] out[k1]).index is None
                    && (#[trigger] out[k2]).index is None ==> out[k1].end <= out[k2].start
            &&& p == BehaviorForUnmatched::KeepAsWords ==> forall|k: int|
                0 <= k < out.len() && (#[trigger] out[k]).index is None ==> (out[k].start == c
                    || exists|j: int| 0 <= j < ms.len() && (#[trigger] ms[j]).end == out[k].start)
                    && (out[k].end == n || exists|j: int|
                    0 <= j < ms.len() && (#[trigger] ms[j]).start == out[k].end)
        }),
    decreases ms.len(),
{
    let out = fill(ms, c, n, p);
    if ms.len() == 0 {
        if c < n {
            let g = gap(c, n, p);
            assert(out == g);
        } else {
            assert(out.len() == 0);
        }
    } else {
        let m = ms[0];
        assert(m.start < m.end && m.end <= n);
        let rest = ms.drop_first();
        assert forall|i: int| 0 <= i < rest.len() implies #[trigger] rest[i].start < rest[i].end
            && rest[i].end <= n by {
            assert(rest[i] == ms[i + 1]);
        }
        assert forall|i: int, j: int| 0 <= i < j < rest.len() implies #[trigger] rest[i].start
            <= #[trigger] rest[j].start by {
            assert(rest[i] == ms[i + 1] && rest[j] == ms[j + 1]);
        }
        assert forall|j: int| 0 <= j < rest.len() implies (#[trigger] rest[j]).index is Some by {
            assert(rest[j] == ms[j + 1]);
        }
        let c2 = max_nat(c, m.end);
        lemma_fill_fillers(rest, c2, n, p);
        let before = if c < m.start {
            gap(c, m.start, p)
        } else {
            seq![]
        };
        let tail = fill(rest, c2, n, p);
        assert(out == before + seq![m] + tail);
        let b = before.len() as int;
        assert(m.index is Some);
        assert forall|k: int| 0 <= k < b implies (#[trigger] before[k]).index is None && c
            <= before[k].start < before[k].end <= m.start by {}
        assert forall|k: int| 0 <= k < out.len() && (#[trigger] out[k]).index is None implies c
            <= out[k].start < out[k].end <= n by {
            if k < b {
                assert(out[k] == before[k]);
            } else {
                assert(k > b);
                assert(out[k] == tail[k - b - 1]);
            }
        }
        assert forall|k: int, j: int|
            0 <= k < out.len() && 0 <= j < ms.len() && (#[trigger] out[k]).index is None implies disjoint(
            out[k],
            #[trigger] ms[j],
        ) by {
            if k < b {
                assert(out[k] == before[k]);
                if j > 0 {
                    assert(ms[0].start <= ms[j].start);
                }
            } else {
                assert(out[k] == tail[k - b - 1]);
                if j > 0 {
                    assert(ms[j] == rest[j - 1]);
                }
            }
        }
        assert forall|k1: int, k2: int|
            0 <= k1 < k2 < out.len() && (#[trigger] out[k1]).index is None && (#[trigger] out[k2]).index is None implies out[k1].end
            <= out[k2].start by {
            if k2 < b {
                assert(out[k1] == before[k1] && out[k2] == before[k2]);
                if p == BehaviorForUnmatched::KeepAsWords {
                    assert(before.len() == 1);
                }
            } else if k1 < b {
                assert(out[k1] == before[k1]);
                assert(out[k2] == tail[k2 - b - 1]);
            } else {
                assert(out[k1] == tail[k1 - b - 1]);
                assert(out[k2] == tail[k2 - b - 1]);
            }
        }
        if p == BehaviorForUnmatched::KeepAsWords {
            assert forall|k: int| 0 <= k < out.len() && (#[trigger] out[k]).index is None implies (
            out[k].start == c || exists|j: int| 0 <= j < ms.len() && (#[trigger] ms[j]).end
                == out[k].start) && (out[k].end == n || exists|j: int|
                0 <= j < ms.len() && (#[trigger] ms[j]).start == out[k].end) by {
                if k < b {
                    assert(out[k] == before[k]);
                    assert(before[k] == Span { start: c, end: m.start, index: None });
                    assert(ms[0].start == out[k].end);
                } else {
                    let t = k - b - 1;
                    assert(out[k] == tail[t]);
                    if tail[t].start == c2 {
                        if c2 != c {
                            assert(ms[0].end == out[k].start);
                        }
                    } else {
                        let j = choose|j: int| 0 <= j < rest.len() && (#[trigger] rest[j]).end
                            == tail[t].start;
                        assert(ms[j + 1] == rest[j]);
                    }
                    if tail[t].end != n {
                        let j = choose|j: int| 0 <= j < rest.len() && (#[trigger] rest[j]).start
                            == tail[t].end;
                        assert(ms[j + 1] == rest[j]);
                    }
                }
            }
        }
    }
}

proof fn lemma_fully_sorted(d: Map<Seq<char>, u32>, cs: Seq<char>, i: int)
    requires
        0 <= i,
    ensures
        sorted_by_start(fully_from(d, cs, i)),
        spans_within(fully_from(d, cs, i), cs.len()),
        forall|k: int| 0 <= k < fully_from(d, cs, i).len() ==> (#[trigger] fully_from(d, cs, i)[k]).start >= i,
    decreases cs.len() - i,
{
    if i < cs.len() {
        lemma_fully_sorted(d, cs, i + 1);
        lemma_hits_at_bounds(d, cs, i, i + 1);
        let h = hits_at(d, cs, i, i + 1);
        let t = fully_from(d, cs, i + 1);
        let f = fully_from(d, cs, i);
        assert(f == h + t);
        assert forall|k: int| 0 <= k < f.len() implies (#[trigger] f[k]).start >= i && f[k].start
            < f[k].end && f[k].end <= cs.len() by {
            if k < h.len() {
                assert(f[k] == h[k]);
            } else {
                assert(f[k] == t[k - h.len()]);
            }
        }
        assert forall|a: int, b: int| 0 <= a < b < f.len() implies #[trigger] f[a].start
            <= #[trigger] f[b].start by {
            if b < h.len() {
                assert(f[a] == h[a] && f[b] == h[b]);
            } else if a < h.len() {
                assert(f[a] == h[a] && f[b] == t[b - h.len()]);
            } else {
                assert(f[a] == t[a - h.len()] && f[b] == t[b - h.len()]);
            }
        }
    }
}

proof fn lemma_byte_in_char(cs: Seq<char>, q: nat, j: int)
    requires
        0 <= j <= cs.len(),
        q < offset(cs, j),
    ensures
        exists|x: int| 0 <= x < j && #[trigger] offset(cs, x) <= q < offset(cs, x + 1),
    decreases j,
{
    if j == 0 {
        assert(cs.take(0) =~= Seq::<char>::empty());
    } else if q < offset(cs, j - 1) {
        lemma_byte_in_char(cs, q, j - 1);
    } else {
        assert(offset(cs, j - 1) <= q < offset(cs, j - 1 + 1));
    }
}

proof fn lemma_positions_to_bytes(r: Seq<Match>, cs: Seq<char>, ss: Seq<Span>)
    requires
        located_all(r, cs, ss),
        covers_positions(ss, 0, cs.len()),
    ensures
        covers_bytes(r, encode_utf8(cs).len()),
{
    assert(cs.take(cs.len() as int) =~= cs);
    assert forall|q: nat| q < encode_utf8(cs).len() implies #[trigger] byte_covered(r, q) by {
        lemma_byte_in_char(cs, q, cs.len() as int);
        let x = choose|x: int| 0 <= x < cs.len() && #[trigger] offset(cs, x) <= q < offset(cs, x + 1);
        assert(covered_at(ss, x as nat, cs.len()));
        let k = choose|k: int|
            0 <= k < ss.len() && (#[trigger] ss[k]).start <= x < ss[k].end && ss[k].end <= cs.len();
        assert(located(r[k], cs, ss[k]));
        lemma_offset_monotone(cs, ss[k].start as int, x);
        lemma_offset_monotone(cs, x + 1, ss[k].end as int);
    }
}

/// With a policy that keeps gaps, fully segmentation in text order leaves no
/// byte of the case-folded text uncovered. Its filler spans are non-empty,
/// come in order without overlapping one another, and overlap no pattern
/// occurrence. With `KeepAsWords`, each filler starts at the start of the
/// text or at the end of an occurrence, and ends at the end of the text or at
/// the start of one: it is a maximal stretch that no occurrence covers.
pub proof fn law_fully_covers_text(
    d: Map<Seq<char>, u32>,
    cs: Seq<char>,
    policy: BehaviorForUnmatched,
    r: Seq<Match>,
)
    requires
        policy != BehaviorForUnmatched::Ignore,
        located_all(r, cs, segmentation(fully_from(d, cs, 0), cs.len(), policy)),
    ensures
        covers_bytes(r, encode_utf8(cs).len()),
        ({
            let out = segmentation(fully_from(d, cs, 0), cs.len(), policy);
            let ms = fully_from(d, cs, 0);
            &&& covers_positions(out, 0, cs.len())
            &&& forall|k: int|
                0 <= k < out.len() && (#[trigger] out[k]).index is None ==> out[k].start
                    < out[k].end <= cs.len()
            &&& forall|k: int, j: int|
                0 <= k < out.len() && 0 <= j < ms.len() && (#[trigger] out[k]).index is None
                    ==> disjoint(out[k], #[trigger] ms[j])
            &&& forall|k1: int, k2: int|
                0 <= k1 < k2 < out.len() && (#[trigger] out[k1]).index is None
                    && (#[trigger] out[k2]).index is None ==> out[k1].end <= out[k2].start
            &&& policy == BehaviorForUnmatched::KeepAsWords ==> forall|k: int|
                0 <= k < out.len() && (#[trigger] out[k]).index is None ==> (out[k].start == 0
                    || exists|j: int| 0 <= j < ms.len() && (#[trigger] ms[j]).end == out[k].start)
                    && (out[k].end == cs.len() || exists|j: int|
                    0 <= j < ms.len() && (#[trigger] ms[j]).start == out[k].end)
        }),
{
    let ms = fully_from(d, cs, 0);
    lemma_fully_sorted(d, cs, 0);
    lemma_fully_confirmed(d, cs, 0);
    lemma_fill_covers(ms, 0, cs.len(), policy);
    lemma_fill_fillers(ms, 0, cs.len(), policy);
    lemma_positions_to_bytes(r, cs, segmentation(ms, cs.len(), policy));
}

/// With a policy that keeps gaps, fully segmentation in automaton order
/// leaves no byte of the case-folded text uncovered.
pub proof fn law_occurrences_cover_text(
    d: Map<Seq<char>, u32>,
    cs: Seq<char>,
    policy: BehaviorForUnmatched,
    r: Seq<Match>,
)
    requires
        policy != BehaviorForUnmatched::Ignore,
        located_all(r, cs, segmentation(occurrences_by_end(d, cs, 1), cs.len(), policy)),
    ensures
        covers_bytes(r, encode_utf8(cs).len()),
{
    lemma_occurrences_within(d, cs, 1);
    lemma_fill_covers(occurrences_by_end(d, cs, 1), 0, cs.len(), policy);
    lemma_positions_to_bytes(r, cs, segmentation(occurrences_by_end(d, cs, 1), cs.len(), policy));
}

} // verus!
