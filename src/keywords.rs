//! Ranking matches by the weight of their pattern.
use vstd::prelude::*;
use crate::pattern_match::Match;

verus! {

/// The rank of a match: one more than the rank of its pattern, or 0 for a
/// match without a ranked pattern, which thus comes below every other.
pub open spec fn rank_of(m: Match, ranks: Seq<u64>) -> int {
    match m.spec_index() {
        Some(i) => if (i as int) < ranks.len() {
            ranks[i as int] + 1
        } else {
            0
        },
        None => 0,
    }
}

/// `sorted` with `m` put after every element ranked at least as high.
pub open spec fn insert_by_rank(sorted: Seq<Match>, m: Match, ranks: Seq<u64>) -> Seq<Match>
    decreases sorted.len(),
{
    if sorted.len() == 0 {
        seq![m]
    } else if rank_of(sorted.last(), ranks) >= rank_of(m, ranks) {
        sorted.push(m)
    } else {
        insert_by_rank(sorted.drop_last(), m, ranks).push(sorted.last())
    }
}

/// `ms` sorted by descending rank, matches of equal rank kept in order.
pub open spec fn sort_by_rank(ms: Seq<Match>, ranks: Seq<u64>) -> Seq<Match>
    decreases ms.len(),
{
    if ms.len() == 0 {
        seq![]
    } else {
        insert_by_rank(sort_by_rank(ms.drop_last(), ranks), ms.last(), ranks)
    }
}

fn rank(m: &Match, ranks: &Vec<u64>) -> (r: (bool, u64))
    ensures
        rank_of(*m, ranks@) == if r.0 {
            r.1 + 1
        } else {
            0
        },
{
    match m.index_of_patterns() {
        Some(i) => if (i as usize) < ranks.len() {
            (true, ranks[i as usize])
        } else {
            (false, 0)
        },
        None => (false, 0),
    }
}

/// Whether `a` ranks at least as high as `b`.
fn ranks_at_least(a: (bool, u64), b: (bool, u64)) -> (r: bool)
    ensures
        r == ((if a.0 {
            a.1 + 1
        } else {
            0
        }) >= (if b.0 {
            b.1 + 1
        } else {
            0
        })),
{
    if !b.0 {
        true
    } else if !a.0 {
        false
    } else {
        a.1 >= b.1
    }
}

proof fn lemma_insert_at(sorted: Seq<Match>, m: Match, ranks: Seq<u64>, j: int)
    requires
        0 <= j <= sorted.len(),
        j == 0 || rank_of(sorted[j - 1], ranks) >= rank_of(m, ranks),
        forall|k: int| j <= k < sorted.len() ==> rank_of(#[trigger] sorted[k], ranks) < rank_of(m, ranks),
    ensures
        insert_by_rank(sorted, m, ranks) == sorted.take(j).push(m) + sorted.skip(j),
    decreases sorted.len(),
{
    if sorted.len() == 0 {
        assert(sorted.take(j).push(m) + sorted.skip(j) =~= seq![m]);
    } else if j == sorted.len() {
        assert(sorted.take(j).push(m) + sorted.skip(j) =~= sorted.push(m));
    } else {
        let last = sorted.last();
        assert(rank_of(last, ranks) < rank_of(m, ranks));
        let rest = sorted.drop_last();
        assert forall|k: int| j <= k < rest.len() implies rank_of(#[trigger] rest[k], ranks) < rank_of(m, ranks) by {
            assert(rest[k] == sorted[k]);
        }
        if j > 0 {
            assert(rest[j - 1] == sorted[j - 1]);
        }
        lemma_insert_at(rest, m, ranks, j);
        assert(rest.take(j).push(m) + rest.skip(j) + seq![last] =~= sorted.take(j).push(m) + sorted.skip(j));
    }
}

/// The `top` highest-ranked matches, highest first, matches of equal rank in
/// their order in `matches`. `ranks[i]` ranks pattern `i`; a match without a
/// ranked pattern comes below every other.
pub fn extract_keywords(matches: &Vec<Match>, ranks: &Vec<u64>, top: usize) -> (r: Vec<Match>)
    ensures
        r@ == sort_by_rank(matches@, ranks@).take(
            if top < matches@.len() {
                top as int
            } else {
                matches@.len() as int
            },
        ),
{
    let mut sorted: Vec<Match> = Vec::new();
    let mut i: usize = 0;
    while i < matches.len()
        invariant
            i <= matches@.len(),
            sorted@ == sort_by_rank(matches@.take(i as int), ranks@),
            sorted@.len() == i,
        decreases matches@.len() - i,
    {
        let m = matches[i];
        let key = rank(&m, ranks);
        let mut j: usize = sorted.len();
        while j > 0 && !ranks_at_least(rank(&sorted[j - 1], ranks), key)
            invariant
                j <= sorted@.len(),
                rank_of(m, ranks@) == if key.0 {
                    key.1 + 1
                } else {
                    0
                },
                forall|k: int| j <= k < sorted@.len() ==> rank_of(#[trigger] sorted@[k], ranks@) < rank_of(m, ranks@),
            decreases j,
        {
            j = j - 1;
        }
        proof {
            lemma_insert_at(sorted@, m, ranks@, j as int);
            assert(matches@.take(i + 1).drop_last() =~= matches@.take(i as int));
            assert(matches@.take(i + 1).last() == m);
        }
        let ghost before = sorted@;
        sorted.insert(j, m);
        proof {
            assert(sorted@ =~= before.take(j as int).push(m) + before.skip(j as int));
        }
        i = i + 1;
    }
    proof {
        assert(matches@.take(i as int) =~= matches@);
    }
    let n = if top < sorted.len() {
        top
    } else {
        sorted.len()
    };
    let mut out: Vec<Match> = Vec::new();
    let mut k: usize = 0;
    while k < n
        invariant
            n <= sorted@.len(),
            k <= n,
            out@ == sorted@.take(k as int),
        decreases n - k,
    {
        out.push(sorted[k]);
        k = k + 1;
        proof {
            assert(out@ =~= sorted@.take(k as int));
        }
    }
    out
}

} // verus!
