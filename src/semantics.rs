//! What each segmentation strategy reports, stated over a dictionary seen as
//! a map from case-folded pattern to ordinal and a text seen as characters.
use vstd::prelude::*;
use crate::unmatched::Span;

verus! {

/// Characters `i..j` of `cs` are a pattern of `d`.
pub open spec fn hit(d: Map<Seq<char>, u32>, cs: Seq<char>, i: int, j: int) -> bool {
    d.contains_key(cs.subrange(i, j))
}

/// The confirmed match of characters `i..j`.
pub open spec fn span_at(d: Map<Seq<char>, u32>, cs: Seq<char>, i: int, j: int) -> Span {
    Span { start: i as nat, end: j as nat, index: Some(d[cs.subrange(i, j)]) }
}

/// The largest `j` in `i + 1..=e` such that characters `i..j` are a
/// pattern, or `i` where there is none.
pub open spec fn last_hit(d: Map<Seq<char>, u32>, cs: Seq<char>, i: int, e: int) -> int
    decreases e - i,
{
    if e <= i {
        i
    } else if hit(d, cs, i, e) {
        e
    } else {
        last_hit(d, cs, i, e - 1)
    }
}

/// The smallest `k` in `s..j` such that characters `k..j` are a pattern,
/// or `j` where there is none.
pub open spec fn first_hit(d: Map<Seq<char>, u32>, cs: Seq<char>, s: int, j: int) -> int
    decreases j - s,
{
    if j <= s {
        j
    } else if hit(d, cs, s, j) {
        s
    } else {
        first_hit(d, cs, s + 1, j)
    }
}

/// Forward longest matching from character `i`: at each position the
/// longest pattern starting there is taken and the scan resumes at its end;
/// a position where no pattern starts is skipped.
pub open spec fn forward_from(d: Map<Seq<char>, u32>, cs: Seq<char>, i: int) -> Seq<Span>
    decreases cs.len() - i,
{
    if i < 0 || i >= cs.len() {
        seq![]
    } else {
        let k = last_hit(d, cs, i, cs.len() as int);
        if i < k <= cs.len() {
            seq![span_at(d, cs, i, k)] + forward_from(d, cs, k)
        } else {
            forward_from(d, cs, i + 1)
        }
    }
}

/// Backward longest matching of the first `j` characters: at each end
/// position the longest pattern ending there is taken and the scan resumes at
/// its start. The matches are listed in text order.
pub open spec fn backward_upto(d: Map<Seq<char>, u32>, cs: Seq<char>, j: int) -> Seq<Span>
    decreases j,
{
    if j <= 0 || j > cs.len() {
        seq![]
    } else {
        let k = first_hit(d, cs, 0, j);
        if 0 <= k < j {
            backward_upto(d, cs, k) + seq![span_at(d, cs, k, j)]
        } else {
            backward_upto(d, cs, j - 1)
        }
    }
}

/// Every pattern occurrence starting at character `i` and ending at `j` or
/// later, shortest first.
pub open spec fn hits_at(d: Map<Seq<char>, u32>, cs: Seq<char>, i: int, j: int) -> Seq<Span>
    decreases cs.len() + 1 - j,
{
    if j > cs.len() || j <= i {
        seq![]
    } else {
        (if hit(d, cs, i, j) {
            seq![span_at(d, cs, i, j)]
        } else {
            seq![]
        }) + hits_at(d, cs, i, j + 1)
    }
}

/// Every pattern occurrence starting at character `i` or later, by start
/// and then by end.
pub open spec fn fully_from(d: Map<Seq<char>, u32>, cs: Seq<char>, i: int) -> Seq<Span>
    decreases cs.len() - i,
{
    if i < 0 || i >= cs.len() {
        seq![]
    } else {
        hits_at(d, cs, i, i + 1) + fully_from(d, cs, i + 1)
    }
}

/// Number of spans of exactly one character.
pub open spec fn single_chars(ss: Seq<Span>) -> nat
    decreases ss.len(),
{
    if ss.len() == 0 {
        0
    } else {
        (if ss.last().end == ss.last().start + 1 {
            1nat
        } else {
            0nat
        }) + single_chars(ss.drop_last())
    }
}

/// Of a forward and a backward segmentation, the one with fewer spans; on a
/// tie the one with fewer single-character spans; on a further tie the
/// backward one.
pub open spec fn prefer(forward: Seq<Span>, backward: Seq<Span>) -> Seq<Span> {
    if forward.len() < backward.len() {
        forward
    } else if forward.len() > backward.len() {
        backward
    } else if single_chars(forward) < single_chars(backward) {
        forward
    } else {
        backward
    }
}

pub proof fn lemma_last_hit(d: Map<Seq<char>, u32>, cs: Seq<char>, i: int, e: int)
    requires
        i <= e,
    ensures
        i <= last_hit(d, cs, i, e) <= e,
        last_hit(d, cs, i, e) > i ==> hit(d, cs, i, last_hit(d, cs, i, e)),
        forall|j: int| last_hit(d, cs, i, e) < j <= e ==> !#[trigger] hit(d, cs, i, j),
    decreases e - i,
{
    if e > i && !hit(d, cs, i, e) {
        lemma_last_hit(d, cs, i, e - 1);
    }
}

pub proof fn lemma_first_hit(d: Map<Seq<char>, u32>, cs: Seq<char>, s: int, j: int)
    requires
        s <= j,
    ensures
        s <= first_hit(d, cs, s, j) <= j,
        first_hit(d, cs, s, j) < j ==> hit(d, cs, first_hit(d, cs, s, j), j),
        forall|k: int| s <= k < first_hit(d, cs, s, j) ==> !#[trigger] hit(d, cs, k, j),
    decreases j - s,
{
    if j > s && !hit(d, cs, s, j) {
        lemma_first_hit(d, cs, s + 1, j);
    }
}

/// Every pattern occurrence ending at character `j` and starting at `k` or
/// later, longest first.
pub open spec fn ends_at(d: Map<Seq<char>, u32>, cs: Seq<char>, k: int, j: int) -> Seq<Span>
    decreases j - k,
{
    if k < 0 || k >= j {
        seq![]
    } else {
        (if hit(d, cs, k, j) {
            seq![span_at(d, cs, k, j)]
        } else {
            seq![]
        }) + ends_at(d, cs, k + 1, j)
    }
}

/// Every pattern occurrence ending at character `j` or later, by end and,
/// at one end, longest first: the order in which an Aho-Corasick automaton
/// reports them.
pub open spec fn occurrences_by_end(d: Map<Seq<char>, u32>, cs: Seq<char>, j: int) -> Seq<Span>
    decreases cs.len() + 1 - j,
{
    if j <= 0 || j > cs.len() {
        seq![]
    } else {
        ends_at(d, cs, 0, j) + occurrences_by_end(d, cs, j + 1)
    }
}

/// Spans found over the reversed text of `n` characters, carried back to the
/// text itself and put in text order.
pub open spec fn mirror(ss: Seq<Span>, n: nat) -> Seq<Span> {
    Seq::new(
        ss.len(),
        |k: int|
            Span {
                start: (n - ss[ss.len() - 1 - k].end) as nat,
                end: (n - ss[ss.len() - 1 - k].start) as nat,
                index: ss[ss.len() - 1 - k].index,
            },
    )
}

/// The dictionary whose keys are those of `m` reversed.
pub open spec fn reverse_keys(m: Map<Seq<char>, u32>) -> Map<Seq<char>, u32> {
    Map::new(|k: Seq<char>| m.contains_key(k.reverse()), |k: Seq<char>| m[k.reverse()])
}

proof fn lemma_reverse_hit(m: Map<Seq<char>, u32>, cs: Seq<char>, a: int, b: int)
    requires
        0 <= a <= b <= cs.len(),
    ensures
        hit(m, cs.reverse(), a, b) == hit(
            reverse_keys(m),
            cs,
            cs.len() - b,
            cs.len() - a,
        ),
        cs.reverse().subrange(a, b) == cs.subrange(cs.len() - b, cs.len() - a).reverse(),
        hit(m, cs.reverse(), a, b) ==> m[cs.reverse().subrange(a, b)] == reverse_keys(m)[cs.subrange(
            cs.len() - b,
            cs.len() - a,
        )],
{
    let x = cs.subrange(cs.len() - b, cs.len() - a);
    assert(cs.reverse().subrange(a, b) =~= x.reverse());
}

proof fn lemma_reverse_last_hit(m: Map<Seq<char>, u32>, cs: Seq<char>, i: int, e: int)
    requires
        0 <= i <= e <= cs.len(),
    ensures
        last_hit(m, cs.reverse(), i, e) == cs.len() - first_hit(
            reverse_keys(m),
            cs,
            cs.len() - e,
            cs.len() - i,
        ),
    decreases e - i,
{
    if e > i {
        lemma_reverse_hit(m, cs, i, e);
        if !hit(m, cs.reverse(), i, e) {
            lemma_reverse_last_hit(m, cs, i, e - 1);
        }
    }
}

proof fn lemma_mirror_concat(a: Seq<Span>, b: Seq<Span>, n: nat)
    ensures
        mirror(a + b, n) == mirror(b, n) + mirror(a, n),
{
    assert(mirror(a + b, n) =~= mirror(b, n) + mirror(a, n));
}

proof fn lemma_mirror_forward(m: Map<Seq<char>, u32>, cs: Seq<char>, i: int)
    requires
        0 <= i <= cs.len(),
    ensures
        mirror(forward_from(m, cs.reverse(), i), cs.len()) == backward_upto(
            reverse_keys(m),
            cs,
            cs.len() - i,
        ),
    decreases cs.len() - i,
{
    let n = cs.len() as int;
    let rev = cs.reverse();
    let d = reverse_keys(m);
    if i == n {
        assert(mirror(forward_from(m, rev, i), cs.len()) =~= Seq::<Span>::empty());
    } else {
        let k = last_hit(m, rev, i, n);
        lemma_reverse_last_hit(m, cs, i, n);
        lemma_last_hit(m, rev, i, n);
        assert(first_hit(d, cs, 0, n - i) == n - k);
        if i < k {
            lemma_mirror_forward(m, cs, k);
            lemma_reverse_hit(m, cs, i, k);
            let s = span_at(m, rev, i, k);
            lemma_mirror_concat(seq![s], forward_from(m, rev, k), cs.len());
            assert(mirror(seq![s], cs.len()) =~= seq![span_at(d, cs, n - k, n - i)]);
        } else {
            lemma_mirror_forward(m, cs, i + 1);
        }
    }
}

/// Forward longest matching over the reversed text with a dictionary of
/// reversed patterns, carried back to the text, is backward longest matching
/// over the text itself.
pub proof fn lemma_reversal(m: Map<Seq<char>, u32>, cs: Seq<char>)
    ensures
        mirror(forward_from(m, cs.reverse(), 0), cs.len()) == backward_upto(
            reverse_keys(m),
            cs,
            cs.len() as int,
        ),
{
    lemma_mirror_forward(m, cs, 0);
}

/// Spans moved `i` characters further into the text.
pub open spec fn shift(ss: Seq<Span>, i: nat) -> Seq<Span> {
    ss.map_values(|s: Span| Span { start: s.start + i, end: s.end + i, index: s.index })
}

/// The occurrences at the start of the suffix from character `i` are the
/// occurrences at character `i` of the whole text.
pub proof fn lemma_hits_at_shift(d: Map<Seq<char>, u32>, cs: Seq<char>, i: int, j: int)
    requires
        0 <= i <= cs.len(),
        1 <= j,
    ensures
        shift(hits_at(d, cs.subrange(i, cs.len() as int), 0, j), i as nat) == hits_at(
            d,
            cs,
            i,
            i + j,
        ),
    decreases cs.len() + 1 - j,
{
    let hay = cs.subrange(i, cs.len() as int);
    if j <= hay.len() {
        lemma_hits_at_shift(d, cs, i, j + 1);
        assert(hay.subrange(0, j) =~= cs.subrange(i, i + j));
        let tail = hits_at(d, hay, 0, j + 1);
        let head = if hit(d, hay, 0, j) {
            seq![span_at(d, hay, 0, j)]
        } else {
            seq![]
        };
        assert(hits_at(d, hay, 0, j) == head + tail);
        assert(shift(head + tail, i as nat) =~= shift(head, i as nat) + shift(tail, i as nat));
        if hit(d, hay, 0, j) {
            assert(shift(head, i as nat) =~= seq![span_at(d, cs, i, i + j)]);
        } else {
            assert(shift(head, i as nat) =~= Seq::<Span>::empty());
        }
    } else {
        assert(shift(hits_at(d, hay, 0, j), i as nat) =~= Seq::<Span>::empty());
    }
}

/// Of the occurrences at character `i` ending at `j` or later, the last is
/// the longest one, and there is none where the longest ends before `j`.
pub proof fn lemma_hits_at_last(d: Map<Seq<char>, u32>, cs: Seq<char>, i: int, j: int)
    requires
        0 <= i < j <= cs.len() + 1,
    ensures
        ({
            let l = last_hit(d, cs, i, cs.len() as int);
            let h = hits_at(d, cs, i, j);
            &&& l < j ==> h.len() == 0
            &&& l >= j ==> h.len() > 0 && h.last() == span_at(d, cs, i, l)
        }),
    decreases cs.len() + 1 - j,
{
    lemma_last_hit(d, cs, i, cs.len() as int);
    let l = last_hit(d, cs, i, cs.len() as int);
    if j <= cs.len() {
        lemma_hits_at_last(d, cs, i, j + 1);
        let tail = hits_at(d, cs, i, j + 1);
        if l == j {
            assert(hits_at(d, cs, i, j) == seq![span_at(d, cs, i, j)] + tail);
        } else if l < j {
            assert(!hit(d, cs, i, j));
            assert(hits_at(d, cs, i, j) =~= Seq::<Span>::empty() + tail);
        } else {
            let head = if hit(d, cs, i, j) {
                seq![span_at(d, cs, i, j)]
            } else {
                seq![]
            };
            assert(hits_at(d, cs, i, j) == head + tail);
            assert((head + tail).last() == tail.last());
        }
    }
}

/// The occurrences at the start of a text lie within it.
pub proof fn lemma_hits_at_bounds(d: Map<Seq<char>, u32>, cs: Seq<char>, i: int, j: int)
    requires
        0 <= i,
    ensures
        forall|k: int|
            0 <= k < hits_at(d, cs, i, j).len() ==> (#[trigger] hits_at(d, cs, i, j)[k]).start == i
                && hits_at(d, cs, i, j)[k].start < hits_at(d, cs, i, j)[k].end <= cs.len(),
    decreases cs.len() + 1 - j,
{
    if j <= cs.len() && j > i {
        lemma_hits_at_bounds(d, cs, i, j + 1);
        let tail = hits_at(d, cs, i, j + 1);
        let head = if hit(d, cs, i, j) {
            seq![span_at(d, cs, i, j)]
        } else {
            seq![]
        };
        let h = hits_at(d, cs, i, j);
        assert(h == head + tail);
        assert forall|k: int| 0 <= k < h.len() implies (#[trigger] h[k]).start == i && h[k].start
            < h[k].end <= cs.len() by {
            if k >= head.len() {
                assert(h[k] == tail[k - head.len()]);
            }
        }
    }
}

} // verus!
